//! Natural numbers of any size, as digits to a base, the lowest first.

use vstd::arithmetic::power::{lemma_pow0, lemma_pow1, lemma_pow_adds, pow};
use vstd::prelude::*;

verus! {

/// The number that digits spell, the lowest first.
pub open spec fn number(digits: Seq<u32>, base: nat) -> nat
    decreases digits.len(),
{
    if digits.len() == 0 {
        0
    } else {
        digits[0] as nat + base * number(digits.skip(1), base)
    }
}

/// Whether each digit is smaller than the base.
pub open spec fn proper(digits: Seq<u32>, base: nat) -> bool {
    forall|i: int| 0 <= i < digits.len() ==> (#[trigger] digits[i]) < base
}

/// A digit at the top counts as many times the base as there are digits below it.
pub proof fn lemma_push(digits: Seq<u32>, top: u32, base: nat)
    ensures
        number(digits.push(top), base) == number(digits, base) + top * pow(
            base as int,
            digits.len(),
        ),
    decreases digits.len(),
{
    if digits.len() == 0 {
        lemma_pow0(base as int);
        assert(digits.push(top).skip(1) =~= Seq::<u32>::empty());
        assert(number(digits.push(top).skip(1), base) == 0);
        assert(base * 0 == 0) by (nonlinear_arith);
        assert(top * 1 == top);
    } else {
        let rest = digits.skip(1);
        lemma_push(rest, top, base);
        assert(digits.push(top).skip(1) =~= rest.push(top));
        lemma_pow_adds(base as int, 1, rest.len());
        lemma_pow1(base as int);
        let p = pow(base as int, rest.len());
        let n = number(rest, base);
        assert(base * (n + top * p) == base * n + top * (base * p)) by (nonlinear_arith);
    }
}

/// Digits stay below the power of the base that their count makes.
pub proof fn lemma_bound(digits: Seq<u32>, base: nat)
    requires
        base > 0,
        proper(digits, base),
    ensures
        number(digits, base) < pow(base as int, digits.len()),
    decreases digits.len(),
{
    if digits.len() == 0 {
        lemma_pow0(base as int);
    } else {
        let lower = digits.drop_last();
        lemma_bound(lower, base);
        assert(digits =~= lower.push(digits.last()));
        lemma_push(lower, digits.last(), base);
        lemma_pow_adds(base as int, 1, lower.len());
        lemma_pow1(base as int);
        let p = pow(base as int, lower.len());
        let top = digits.last();
        assert(top < base);
        assert(top * p + p <= base * p) by (nonlinear_arith)
            requires
                top + 1 <= base,
                p >= 0,
        ;
    }
}

/// Multiplies by a factor and adds to the result.
pub fn multiply_add(digits: &mut Vec<u32>, base: u64, factor: u64, addend: u64)
    requires
        2 <= base <= 0x1_0000_0000,
        proper(old(digits)@, base as nat),
    ensures
        proper(final(digits)@, base as nat),
        number(final(digits)@, base as nat) == number(old(digits)@, base as nat) * factor + addend,
        old(digits)@.len() > 0 && old(digits)@.last() > 0 && factor > 0 ==> final(digits)@.len() > 0
            && final(digits)@.last() > 0,
{
    let ghost before = digits@;
    let ghost b = base as nat;
    let mut out: Vec<u32> = Vec::new();
    let mut carry: u64 = addend;
    let mut i: usize = 0;
    proof {
        lemma_pow0(b as int);
        assert(before.take(0) =~= Seq::<u32>::empty());
        assert(0 * factor == 0);
        assert(carry * 1 == carry);
    }
    while i < digits.len()
        invariant
            2 <= base <= 0x1_0000_0000,
            b == base,
            i <= digits.len(),
            digits@ == before,
            proper(before, b),
            proper(out@, b),
            out@.len() == i,
            number(out@, b) + carry * pow(b as int, i as nat) == number(before.take(i as int), b)
                * factor + addend,
            i > 0 && before[i - 1] > 0 && factor > 0 ==> carry > 0 || out@[i - 1] > 0,
        decreases digits.len() - i,
    {
        let digit: u64 = digits[i] as u64;
        assert(digit < base) by {
            assert(before[i as int] < b);
        }
        assert(0 <= digit * factor && digit * factor + carry <= base * 0xffff_ffff_ffff_ffff)
            by (nonlinear_arith)
            requires
                0 <= digit <= base - 1,
                0 <= factor <= 0xffff_ffff_ffff_ffff,
                0 <= carry <= 0xffff_ffff_ffff_ffff,
                base >= 2,
        ;
        let total: u128 = digit as u128 * factor as u128 + carry as u128;
        let low: u128 = total % base as u128;
        let high: u128 = total / base as u128;
        proof {
            vstd::arithmetic::div_mod::lemma_fundamental_div_mod(total as int, base as int);
            assert(high <= 0xffff_ffff_ffff_ffff) by (nonlinear_arith)
                requires
                    total == base * high + low,
                    low >= 0,
                    total <= base * 0xffff_ffff_ffff_ffff,
                    base > 0,
            ;
            lemma_push(out@, low as u32, b);
            assert(before.take(i as int + 1) =~= before.take(i as int).push(before[i as int]));
            lemma_push(before.take(i as int), before[i as int], b);
            lemma_pow_adds(b as int, 1, i as nat);
            lemma_pow1(b as int);
            let p = pow(b as int, i as nat);
            let n = number(out@, b);
            let m = number(before.take(i as int), b);
            let next = b * p;
            assert(n + low * p + high * next == (m + digit * p) * factor + addend)
                by (nonlinear_arith)
                requires
                    n + carry * p == m * factor + addend,
                    digit * factor + carry == b * high + low,
                    next == b * p,
            ;
            assert(digit > 0 && factor > 0 ==> total > 0) by (nonlinear_arith)
                requires
                    total == digit * factor + carry,
                    carry >= 0,
            ;
            assert(high == 0 && low == 0 ==> total == 0) by (nonlinear_arith)
                requires
                    total == base * high + low,
            ;
        }
        out.push(low as u32);
        carry = high as u64;
        i += 1;
    }
    assert(before.take(i as int) =~= before);
    while carry > 0
        invariant
            2 <= base <= 0x1_0000_0000,
            b == base,
            proper(out@, b),
            number(out@, b) + carry * pow(b as int, out@.len()) == number(before, b) * factor
                + addend,
            before.len() > 0 && before.last() > 0 && factor > 0 && carry == 0 ==> out@.len() > 0
                && out@.last() > 0,
        decreases carry,
    {
        let low: u64 = carry % base;
        let high: u64 = carry / base;
        proof {
            vstd::arithmetic::div_mod::lemma_fundamental_div_mod(carry as int, base as int);
            lemma_push(out@, low as u32, b);
            lemma_pow_adds(b as int, 1, out@.len());
            lemma_pow1(b as int);
            let p = pow(b as int, out@.len());
            let next = b * p;
            assert(low * p + high * next == carry * p) by (nonlinear_arith)
                requires
                    carry == b * high + low,
                    next == b * p,
            ;
            assert(high < carry) by (nonlinear_arith)
                requires
                    carry == base * high + low,
                    base >= 2,
                    carry > 0,
                    low >= 0,
            ;
            assert(high == 0 ==> low > 0) by (nonlinear_arith)
                requires
                    carry == base * high + low,
                    carry > 0,
            ;
        }
        out.push(low as u32);
        carry = high;
    }
    assert(0 * pow(b as int, out@.len()) == 0) by (nonlinear_arith);
    *digits = out;
}

/// The digits of a number, with none that is zero at the top.
pub fn digits_of(value: u64, base: u64) -> (result: Vec<u32>)
    requires
        2 <= base <= 0x1_0000_0000,
        value > 0,
    ensures
        proper(result@, base as nat),
        number(result@, base as nat) == value,
        result@.len() > 0 && result@.last() > 0,
{
    let mut result: Vec<u32> = Vec::new();
    result.push(1);
    proof {
        assert(number(result@.skip(1), base as nat) == 0);
        assert(base as nat * 0 == 0) by (nonlinear_arith);
        assert(1 * (value - 1) == value - 1);
    }
    multiply_add(&mut result, base, 1, value - 1);
    result
}

/// Multiplies by a power of a factor.
pub fn multiply_power(digits: &mut Vec<u32>, base: u64, factor: u64, times: u128)
    requires
        2 <= base <= 0x1_0000_0000,
        0 < factor,
        proper(old(digits)@, base as nat),
    ensures
        proper(final(digits)@, base as nat),
        number(final(digits)@, base as nat) == number(old(digits)@, base as nat) * pow(
            factor as int,
            times as nat,
        ),
        old(digits)@.len() > 0 && old(digits)@.last() > 0 ==> final(digits)@.len() > 0
            && final(digits)@.last() > 0,
{
    let ghost before = digits@;
    let ghost b = base as nat;
    let mut i: u128 = 0;
    proof {
        lemma_pow0(factor as int);
        assert(number(before, b) * 1 == number(before, b));
    }
    while i < times
        invariant
            2 <= base <= 0x1_0000_0000,
            b == base,
            0 < factor,
            i <= times,
            proper(digits@, b),
            number(digits@, b) == number(before, b) * pow(factor as int, i as nat),
            before.len() > 0 && before.last() > 0 ==> digits@.len() > 0 && digits@.last() > 0,
        decreases times - i,
    {
        proof {
            lemma_pow_adds(factor as int, 1, i as nat);
            lemma_pow1(factor as int);
            let n = number(before, b);
            let p = pow(factor as int, i as nat);
            assert(n * p * factor == n * (factor * p)) by (nonlinear_arith);
        }
        multiply_add(digits, base, factor, 0);
        i += 1;
    }
}

/// Whether the first number is smaller, and whether it is the same.
pub fn compared(left: &Vec<u32>, right: &Vec<u32>, base: u64) -> (result: (bool, bool))
    requires
        2 <= base <= 0x1_0000_0000,
        proper(left@, base as nat),
        proper(right@, base as nat),
    ensures
        result.0 == (number(left@, base as nat) < number(right@, base as nat)),
        result.1 == (number(left@, base as nat) == number(right@, base as nat)),
{
    let ghost b = base as nat;
    let mut i: usize = if left.len() > right.len() {
        left.len()
    } else {
        right.len()
    };
    let ghost n = i as nat;
    let ghost l = padded(left@, n);
    let ghost r = padded(right@, n);
    proof {
        lemma_padded(left@, n, b);
        lemma_padded(right@, n, b);
        assert(l.take(n as int) =~= l);
        assert(r.take(n as int) =~= r);
    }
    while i > 0
        invariant
            2 <= base <= 0x1_0000_0000,
            b == base,
            i <= n,
            l == padded(left@, n),
            r == padded(right@, n),
            l.len() == n,
            r.len() == n,
            proper(l, b),
            proper(r, b),
            (number(l, b) < number(r, b)) == (number(l.take(i as int), b) < number(
                r.take(i as int),
                b,
            )),
            (number(l, b) == number(r, b)) == (number(l.take(i as int), b) == number(
                r.take(i as int),
                b,
            )),
            number(l, b) == number(left@, b),
            number(r, b) == number(right@, b),
        decreases i,
    {
        i -= 1;
        let x: u32 = if i < left.len() {
            left[i]
        } else {
            0
        };
        let y: u32 = if i < right.len() {
            right[i]
        } else {
            0
        };
        proof {
            let lower_l = l.take(i as int);
            let lower_r = r.take(i as int);
            assert(l.take(i as int + 1) =~= lower_l.push(x));
            assert(r.take(i as int + 1) =~= lower_r.push(y));
            lemma_push(lower_l, x, b);
            lemma_push(lower_r, y, b);
            lemma_bound(lower_l, b);
            lemma_bound(lower_r, b);
            let p = pow(b as int, i as nat);
            if x < y {
                assert(x * p + p <= y * p) by (nonlinear_arith)
                    requires
                        x + 1 <= y,
                        p >= 0,
                ;
            }
            if y < x {
                assert(y * p + p <= x * p) by (nonlinear_arith)
                    requires
                        y + 1 <= x,
                        p >= 0,
                ;
            }
        }
        if x < y {
            return (true, false);
        }
        if y < x {
            return (false, false);
        }
    }
    proof {
        assert(l.take(0) =~= Seq::<u32>::empty());
        assert(r.take(0) =~= Seq::<u32>::empty());
    }
    (false, true)
}

/// Digits with zeros at the top, so many in all.
pub open spec fn padded(digits: Seq<u32>, n: nat) -> Seq<u32> {
    Seq::new(
        n,
        |i: int|
            if i < digits.len() {
                digits[i]
            } else {
                0
            },
    )
}

/// Zeros at the top change nothing.
pub proof fn lemma_padded(digits: Seq<u32>, n: nat, base: nat)
    requires
        base >= 2,
        proper(digits, base),
        digits.len() <= n,
    ensures
        proper(padded(digits, n), base),
        number(padded(digits, n), base) == number(digits, base),
    decreases n,
{
    let all = padded(digits, n);
    if digits.len() == n {
        assert(all =~= digits);
    } else {
        let less = (n - 1) as nat;
        lemma_padded(digits, less, base);
        assert(all =~= padded(digits, less).push(0));
        lemma_push(padded(digits, less), 0, base);
        assert(0 * pow(base as int, less) == 0) by (nonlinear_arith);
    }
}

} // verus!
