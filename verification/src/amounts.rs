//! Amounts of bytes in binary units.

use crate::double::{
    lemma_parts, lemma_units_at, lemma_units_increase, units, Double, FINEST, HIDDEN,
};
use crate::fixed::push_fixed;
use crate::margins::lemma_integer_is_exact;
use crate::rounding::{lemma_exact, lemma_nearest, lemma_powers};
use vstd::arithmetic::power::{lemma_pow1, lemma_pow_adds, lemma_pow_positive, pow};
use vstd::arithmetic::power2::{
    lemma2_to64, lemma2_to64_rest, lemma_pow2_adds, lemma_pow2_pos, pow2,
};
use vstd::math::abs;
use vstd::prelude::*;

verus! {

/// A unit of bytes: each is 1024 of the one before it.
pub open spec fn byte_unit(i: nat) -> Seq<char> {
    if i == 0 {
        "B"@
    } else if i == 1 {
        "KiB"@
    } else if i == 2 {
        "MiB"@
    } else if i == 3 {
        "GiB"@
    } else if i == 4 {
        "TiB"@
    } else if i == 5 {
        "PiB"@
    } else {
        "EiB"@
    }
}

/// A unit of bytes: each is 1024 of the one before it.
pub fn unit_name(i: u32) -> (result: &'static str)
    ensures
        result@ == byte_unit(i as nat),
{
    if i == 0 {
        "B"
    } else if i == 1 {
        "KiB"
    } else if i == 2 {
        "MiB"
    } else if i == 3 {
        "GiB"
    } else if i == 4 {
        "TiB"
    } else if i == 5 {
        "PiB"
    } else {
        "EiB"
    }
}

/// Whether an amount is 1024 or more, whatever its sign.
pub open spec fn fills_unit(amount: Double) -> bool {
    Double::integer(1024).at_most(amount.magnitude())
}

/// An amount in a unit: bytes without places, other units with one.
pub open spec fn in_unit(amount: Double, unit: nat) -> Seq<char> {
    amount.fixed(
        if unit == 0 {
            0
        } else {
            1
        },
    ) + " "@ + byte_unit(unit)
}

/// An amount in the first unit, from one to another, that it does not fill.
pub open spec fn amount_text(amount: Double, unit: nat, largest: nat) -> Seq<char>
    decreases largest - unit,
{
    if fills_unit(amount) && unit < largest {
        amount_text(amount.quotient(Double::integer(1024)), unit + 1, largest)
    } else {
        in_unit(amount, unit)
    }
}

/// Puts an amount behind a string, in the first unit that it does not fill.
pub fn push_amount(out: &mut String, amount: Double, unit: u32, largest: u32)
    requires
        unit <= largest,
    ensures
        final(out)@ == old(out)@ + amount_text(amount, unit as nat, largest as nat),
{
    let ghost before = out@;
    let step: Double = Double::from_integer(1024);
    let mut scaled: Double = amount;
    let mut at: u32 = unit;
    while at < largest && step.is_at_most(scaled.abs())
        invariant
            at <= largest,
            step == Double::integer(1024),
            amount_text(amount, unit as nat, largest as nat) == amount_text(
                scaled,
                at as nat,
                largest as nat,
            ),
        decreases largest - at,
    {
        scaled = scaled.div(step);
        at += 1;
    }
    if at == 0 {
        push_fixed(out, scaled, 0);
    } else {
        push_fixed(out, scaled, 1);
    }
    out.append(" ");
    out.append(unit_name(at));
    assert(out@ =~= before + in_unit(scaled, at as nat));
}

// ---------------------------------------------------------------------------
// Laws
// ---------------------------------------------------------------------------

proof fn lemma_thousand_and_more()
    ensures
        Double::integer(1024).size() == 1033 * HIDDEN,
        !Double::integer(1024).negative(),
        Double::integer(1024).value() == 1024 * pow2(FINEST as nat),
        pow2(FINEST as nat) > 0,
{
    lemma_powers();
    lemma2_to64();
    lemma2_to64_rest();
    lemma_pow2_pos(FINEST as nat);
    lemma_integer_is_exact(1024, 1, 10, 52, 1032);
}

/// What fills a unit is 1024 of it or more, and is as much in the next unit, exactly.
pub proof fn lemma_next_unit(amount: Double)
    requires
        amount.finite(),
        fills_unit(amount),
    ensures
        amount.quotient(Double::integer(1024)).finite(),
        amount.quotient(Double::integer(1024)).value() * 1024 == amount.value(),
        abs(amount.value()) >= 1024 * pow2(FINEST as nat),
{
    let one = pow2(FINEST as nat);
    let unit = Double::integer(1024);
    lemma_thousand_and_more();
    let size = amount.size();
    assert(amount.magnitude().size() == size);
    let (scale, mantissa) = lemma_parts(size);
    assert(scale >= 1032);
    let less = (scale - 10) as nat;
    let small = (size - 10 * HIDDEN) as nat;
    lemma_units_at(scale, mantissa);
    lemma_units_at(less, mantissa);
    assert(small == less * HIDDEN as nat + mantissa);
    lemma_pow2_adds(10, less);
    lemma2_to64();
    let p = pow2(less);
    assert(mantissa * (1024 * p) == (mantissa * p) * 1024) by (nonlinear_arith);
    assert(units(size) == units(small) * 1024);
    let x = units(small);
    let y = units(unit.size());
    assert(units(size) * one == x * y) by (nonlinear_arith)
        requires
            units(size) == x * 1024,
            y == 1024 * one,
    ;
    lemma_exact(small, y);
    lemma_nearest(x * y, y, small);
    assert(amount.quotient(unit).size() == small);
    assert(units(size) >= 1024 * one) by {
        if size > unit.size() {
            lemma_units_increase(unit.size(), size);
        }
    }
}

/// Whether a text shows an amount in a unit: the number that the amount is of it, to a place
/// behind the point but for bytes, and the name of the unit.
pub open spec fn shows_amount(text: Seq<char>, amount: int, unit: nat, shown: Double) -> bool {
    &&& text == shown.fixed(
        if unit == 0 {
            0
        } else {
            1
        },
    ) + " "@ + byte_unit(unit)
    &&& shown.finite()
    &&& shown.value() * pow(1024, unit) == amount
}

/// An amount is shown in the unit that it has 1 to 1024 of, or in the largest or the smallest
/// where there is none. Its value there is exact before it is rounded to be written.
pub proof fn lemma_amount_is_shown_in_its_unit(
    amount: Double,
    unit: nat,
    largest: nat,
) -> (result: (nat, Double))
    requires
        amount.finite(),
        unit <= largest,
    ensures
        ({
            let (found, shown) = result;
            &&& unit <= found <= largest
            &&& shows_amount(
                amount_text(amount, unit, largest),
                amount.value() * pow(1024, unit),
                found,
                shown,
            )
            &&& found < largest ==> abs(shown.value()) < 1024 * pow2(FINEST as nat)
            &&& found > unit ==> abs(shown.value()) >= pow2(FINEST as nat)
        }),
    decreases largest - unit,
{
    lemma_thousand_and_more();
    if fills_unit(amount) && unit < largest {
        let next = amount.quotient(Double::integer(1024));
        lemma_next_unit(amount);
        let (found, shown) = lemma_amount_is_shown_in_its_unit(next, unit + 1, largest);
        lemma_pow_adds(1024, 1, unit);
        lemma_pow1(1024);
        let p = pow(1024, unit);
        assert(next.value() * (1024 * p) == (next.value() * 1024) * p) by (nonlinear_arith);
        if found == unit + 1 {
            lemma_one_unit(next, shown, unit + 1);
        }
        (found, shown)
    } else {
        if !fills_unit(amount) {
            lemma_units_increase(amount.magnitude().size(), Double::integer(1024).size());
        }
        (unit, amount)
    }
}

proof fn lemma_one_unit(a: Double, b: Double, unit: nat)
    requires
        b.value() * pow(1024, unit) == a.value() * pow(1024, unit),
    ensures
        a.value() == b.value(),
{
    let p = pow(1024, unit);
    let x = a.value();
    let y = b.value();
    lemma_pow_positive(1024, unit);
    assert(x == y) by (nonlinear_arith)
        requires
            y * p == x * p,
            p > 0,
    ;
}

/// The names of the units, each 1024 of the one before it.
pub proof fn lemma_names_of_units()
    ensures
        byte_unit(0) == "B"@,
        byte_unit(1) == "KiB"@,
        byte_unit(2) == "MiB"@,
        byte_unit(3) == "GiB"@,
        byte_unit(4) == "TiB"@,
        byte_unit(5) == "PiB"@,
        byte_unit(6) == "EiB"@,
{
}

} // verus!
