//! Rounding of exact fractions to the nearest double-precision number, halves
//! to the even one.

use crate::double::{
    lemma_units_at, lemma_units_increase, lemma_units_step, units, HIDDEN, INFINITE,
};
use vstd::arithmetic::power2::{
    lemma2_to64, lemma2_to64_rest, lemma_pow2_adds, lemma_pow2_pos, lemma_pow2_strictly_increases,
    lemma_pow2_unfold, pow2,
};
use vstd::prelude::*;

verus! {

/// Whether a size is the one that `num / den` units round to: no other size
/// counts anything nearer, and of two that are as near it is the even one.
pub open spec fn rounds_to(num: nat, den: nat, size: nat) -> bool {
    &&& size <= INFINITE
    &&& size > 0 ==> {
        let middle = (units((size - 1) as nat) + units(size)) * den;
        middle < 2 * num || (middle == 2 * num && size % 2 == 0)
    }
    &&& size < INFINITE ==> {
        let middle = (units(size) + units(size + 1)) * den;
        2 * num < middle || (2 * num == middle && size % 2 == 0)
    }
}

/// The size that `num / den` units round to.
#[verifier::opaque]
pub open spec fn nearest(num: nat, den: nat) -> nat {
    choose|size: nat| rounds_to(num, den, size)
}

/// There is no second size that a fraction rounds to.
pub proof fn lemma_rounds_to_one(num: nat, den: nat, first: nat, second: nat)
    requires
        den > 0,
        rounds_to(num, den, first),
        rounds_to(num, den, second),
    ensures
        first == second,
{
    if first < second {
        lemma_rounds_to_no_larger(num, den, first, second);
    }
    if second < first {
        lemma_rounds_to_no_larger(num, den, second, first);
    }
}

proof fn lemma_rounds_to_no_larger(num: nat, den: nat, small: nat, large: nat)
    requires
        den > 0,
        rounds_to(num, den, small),
        small < large,
    ensures
        !rounds_to(num, den, large),
{
    let below = units(small) + units(small + 1);
    let above = units((large - 1) as nat) + units(large);
    if small + 1 < large {
        lemma_units_increase(small + 1, large);
        lemma_units_increase(small, (large - 1) as nat);
        assert(below < above);
        assert(below * den < above * den) by (nonlinear_arith)
            requires
                below < above,
                den > 0,
        ;
    }
}

/// A size is the nearest where it is one that the fraction rounds to.
pub proof fn lemma_nearest(num: nat, den: nat, size: nat)
    requires
        den > 0,
        rounds_to(num, den, size),
    ensures
        nearest(num, den) == size,
{
    reveal(nearest);
    lemma_rounds_to_one(num, den, nearest(num, den), size);
}

proof fn lemma_some_size(num: nat, den: nat, size: nat)
    requires
        den > 0,
        size <= INFINITE,
        size > 0 ==> {
            let middle = (units((size - 1) as nat) + units(size)) * den;
            middle < 2 * num || (middle == 2 * num && size % 2 == 0)
        },
    ensures
        exists|found: nat| rounds_to(num, den, found),
    decreases INFINITE - size,
{
    let middle = (units(size) + units(size + 1)) * den;
    if size == INFINITE || 2 * num < middle || (2 * num == middle && size % 2 == 0) {
        assert(rounds_to(num, den, size));
    } else {
        lemma_some_size(num, den, size + 1);
    }
}

/// Every fraction rounds to a size.
pub proof fn lemma_rounded(num: nat, den: nat)
    requires
        den > 0,
    ensures
        rounds_to(num, den, nearest(num, den)),
        nearest(num, den) <= INFINITE,
{
    reveal(nearest);
    lemma_some_size(num, den, 0);
}

/// A larger fraction rounds to no smaller size.
pub proof fn lemma_nearest_grows(num: nat, den: nat, larger_num: nat, larger_den: nat)
    requires
        den > 0,
        larger_den > 0,
        num * larger_den <= larger_num * den,
    ensures
        nearest(num, den) <= nearest(larger_num, larger_den),
{
    let a = nearest(num, den);
    let b = nearest(larger_num, larger_den);
    lemma_rounded(num, den);
    lemma_rounded(larger_num, larger_den);
    if a > b {
        let low = units(b) + units(b + 1);
        let high = units((a - 1) as nat) + units(a);
        if b + 1 < a {
            lemma_units_increase(b, (a - 1) as nat);
            lemma_units_increase(b + 1, a);
        }
        assert(high * den <= 2 * num);
        assert(2 * larger_num <= low * larger_den);
        if b + 1 < a || high * den < 2 * num || 2 * larger_num < low * larger_den {
            lemma_crossed(num, den, larger_num, larger_den, low, high);
        }
    }
}

proof fn lemma_crossed(
    num: nat,
    den: nat,
    larger_num: nat,
    larger_den: nat,
    low: nat,
    high: nat,
)
    by (nonlinear_arith)
    requires
        den > 0,
        larger_den > 0,
        low <= high,
        high * den <= 2 * num,
        2 * larger_num <= low * larger_den,
        low < high || high * den < 2 * num || 2 * larger_num < low * larger_den,
    ensures
        num * larger_den > larger_num * den,
{
    assert(high * den * larger_den <= 2 * num * larger_den);
    assert(2 * larger_num * den <= low * larger_den * den);
    assert(low * larger_den * den <= high * larger_den * den);
    assert(high * den * larger_den == high * larger_den * den);
    if low < high {
        assert(low * larger_den < high * larger_den);
        assert(low * larger_den * den < high * larger_den * den);
    }
    if high * den < 2 * num {
        assert(high * den * larger_den < 2 * num * larger_den);
    }
    if 2 * larger_num < low * larger_den {
        assert(2 * larger_num * den < low * larger_den * den);
    }
}

/// What a size counts rounds to that size.
pub proof fn lemma_exact(size: nat, den: nat)
    requires
        size <= INFINITE,
        den > 0,
    ensures
        rounds_to(units(size) * den, den, size),
{
    let here = units(size);
    if size > 0 {
        lemma_units_step((size - 1) as nat);
        let below = units((size - 1) as nat);
        assert((below + here) * den < 2 * (here * den)) by (nonlinear_arith)
            requires
                below < here,
                den > 0,
        ;
    }
    lemma_units_step(size);
    let above = units(size + 1);
    assert(2 * (here * den) < (here + above) * den) by (nonlinear_arith)
        requires
            here < above,
            den > 0,
    ;
}

// ---------------------------------------------------------------------------
// Powers of two
// ---------------------------------------------------------------------------

pub proof fn lemma_powers()
    ensures
        pow2(0) == 1,
        pow2(1) == 2,
        pow2(52) == HIDDEN,
        pow2(53) == 2 * HIDDEN,
{
    lemma2_to64();
    lemma2_to64_rest();
}

/// A power of two that fits.
pub fn power(exponent: u32) -> (result: u128)
    requires
        exponent < 127,
    ensures
        result == pow2(exponent as nat),
{
    proof {
        lemma_powers();
    }
    let mut result: u128 = 1;
    let mut i: u32 = 0;
    while i < exponent
        invariant
            i <= exponent < 127,
            result == pow2(i as nat),
        decreases exponent - i,
    {
        proof {
            lemma_pow2_unfold((i + 1) as nat);
            lemma_pow2_adds(i as nat, (126 - i) as nat);
            lemma_pow2_pos((126 - i) as nat);
            assert(pow2(126) == 0x4000_0000_0000_0000_0000_0000_0000_0000) by {
                lemma2_to64();
                lemma2_to64_rest();
                lemma_pow2_adds(63, 63);
            }
            let base = pow2(i as nat);
            let rest = pow2((126 - i) as nat);
            assert(base <= base * rest) by (nonlinear_arith)
                requires
                    rest >= 1,
            ;
        }
        result = result * 2;
        i += 1;
    }
    result
}

/// The number of binary digits.
pub fn bit_length(value: u128) -> (result: u32)
    ensures
        result <= 128,
        value > 0 ==> result > 0 && pow2((result - 1) as nat) <= value,
        value < pow2(result as nat),
        value == 0 ==> result == 0,
{
    proof {
        lemma_powers();
    }
    let mut rest: u128 = value;
    let mut n: u32 = 0;
    while rest > 0
        invariant
            n <= 128,
            pow2(n as nat) * rest <= value,
            value < pow2(n as nat) * (rest + 1),
            n == 0 ==> rest == value,
            n > 0 ==> value > 0 && pow2((n - 1) as nat) <= value,
        decreases rest,
    {
        let half: u128 = rest / 2;
        proof {
            lemma_pow2_unfold((n + 1) as nat);
            let p = pow2(n as nat);
            assert(p <= value) by (nonlinear_arith)
                requires
                    p * rest <= value,
                    rest >= 1,
            ;
            assert(2 * p * half <= value) by (nonlinear_arith)
                requires
                    p * rest <= value,
                    2 * half <= rest,
                    p >= 0,
            ;
            assert(value < 2 * p * (half + 1)) by (nonlinear_arith)
                requires
                    value < p * (rest + 1),
                    rest + 1 <= 2 * (half + 1),
                    p >= 0,
            ;
            if n == 128 {
                lemma2_to64();
                lemma_pow2_adds(64, 64);
                assert(pow2(128) == 0x1_0000_0000_0000_0000 * 0x1_0000_0000_0000_0000);
                assert(false);
            }
        }
        rest = half;
        n += 1;
    }
    assert(pow2(n as nat) * (0 + 1) == pow2(n as nat)) by (nonlinear_arith);
    n
}

// ---------------------------------------------------------------------------
// Rounding
// ---------------------------------------------------------------------------

pub open spec fn above_zero(e: int) -> nat {
    if e > 0 {
        e as nat
    } else {
        0
    }
}

/// Whether `num / den` is `m` times two to the power of `e`, or, where some of
/// it was cut off, lies between that and the same with `m + 1`.
pub open spec fn scaled(m: nat, e: int, cut: bool, num: nat, den: nat) -> bool {
    let low = m * pow2(above_zero(e)) * den;
    let high = (m + 1) * pow2(above_zero(e)) * den;
    let exact = num * pow2(above_zero(-e));
    if cut {
        low < exact < high
    } else {
        low == exact
    }
}

proof fn lemma_shifted(m: nat, e: int, cut: bool, num: nat, den: nat, scale: nat, shift: nat)
    requires
        scaled(m, e, cut, num, den),
        scale - shift == e,
    ensures
        cut ==> m * (pow2(scale) * den) < num * pow2(shift) < (m + 1) * (pow2(scale) * den),
        !cut ==> m * (pow2(scale) * den) == num * pow2(shift),
{
    let up = pow2(above_zero(e));
    let down = pow2(above_zero(-e));
    let extra: nat = if e > 0 {
        shift
    } else {
        scale
    };
    let f = pow2(extra);
    lemma_powers();
    lemma_pow2_pos(extra);
    lemma_pow2_adds(above_zero(e), extra);
    lemma_pow2_adds(above_zero(-e), extra);
    assert(up * f == pow2(scale));
    assert(down * f == pow2(shift));
    assert(m * up * den * f == m * (up * f * den)) by (nonlinear_arith);
    assert((m + 1) * up * den * f == (m + 1) * (up * f * den)) by (nonlinear_arith);
    assert(num * down * f == num * (down * f)) by (nonlinear_arith);
    let low = m * up * den;
    let high = (m + 1) * up * den;
    let exact = num * down;
    if cut {
        assert(low * f < exact * f && exact * f < high * f) by (nonlinear_arith)
            requires
                low < exact < high,
                f > 0,
        ;
    }
}

/// Where `num` lies between neighbours that are `d` apart.
proof fn lemma_between(
    mantissa: nat,
    rest: nat,
    cut: bool,
    s: nat,
    half: nat,
    d: nat,
    num: nat,
)
    by (nonlinear_arith)
    requires
        s == 2 * half,
        half > 0,
        d > 0,
        rest < s,
        cut ==> (mantissa * s + rest) * d < num * s < (mantissa * s + rest + 1) * d,
        !cut ==> (mantissa * s + rest) * d == num * s,
    ensures
        mantissa * d <= num < (mantissa + 1) * d,
        rest < half ==> 2 * num < (2 * mantissa + 1) * d,
        rest > half || (rest == half && cut) ==> 2 * num > (2 * mantissa + 1) * d,
        rest == half && !cut ==> 2 * num == (2 * mantissa + 1) * d,
{
    assert((mantissa * s + rest) * d <= num * s);
    assert(num * s < (mantissa * s + rest + 1) * d);
    assert(mantissa * d * s <= num * s);
    assert(mantissa * d <= num);
    assert((rest + 1) * d <= s * d);
    assert(num * s < (mantissa * s + s) * d);
    assert((mantissa * s + s) * d == (mantissa + 1) * d * s);
    assert(num < (mantissa + 1) * d);
    assert((2 * mantissa + 1) * d * half == (mantissa * s + half) * d);
    assert(num * s == 2 * num * half);
    if rest < half {
        assert((mantissa * s + rest + 1) * d <= (mantissa * s + half) * d);
        assert(2 * num * half < (2 * mantissa + 1) * d * half);
    } else if rest > half || cut {
        if rest > half {
            assert((mantissa * s + half) * d < (mantissa * s + rest) * d);
        }
        assert(2 * num * half > (2 * mantissa + 1) * d * half);
    } else {
        assert(2 * num * half == (2 * mantissa + 1) * d * half);
        assert(2 * num == (2 * mantissa + 1) * d);
    }
}

/// What lies beyond the largest number rounds to infinity.
proof fn lemma_beyond(num: nat, den: nat, mantissa: nat, scale: nat)
    requires
        den > 0,
        scale >= 2046,
        mantissa >= HIDDEN,
        mantissa * (pow2(scale) * den) <= num,
    ensures
        rounds_to(num, den, INFINITE as nat),
{
    let top = INFINITE as nat;
    assert(top == 2046 * HIDDEN as nat + HIDDEN as nat);
    lemma_units_at(2046, HIDDEN as nat);
    lemma_units_step((top - 1) as nat);
    if scale > 2046 {
        lemma_pow2_strictly_increases(2046, scale);
    }
    let p = pow2(2046);
    let q = pow2(scale);
    let h = HIDDEN as nat;
    let u = units(top);
    let below = units((top - 1) as nat);
    assert(u == h * p);
    assert(u * den <= num) by (nonlinear_arith)
        requires
            u == h * p,
            p <= q,
            h <= mantissa,
            mantissa * (q * den) <= num,
    {
        assert(p * den <= q * den);
        assert(h * (p * den) <= mantissa * (q * den));
        assert(h * p * den == h * (p * den));
    }
    assert((below + u) * den < 2 * num) by (nonlinear_arith)
        requires
            u * den <= num,
            below < u,
            den > 0,
    ;
}

/// The size of two neighbours that a fraction rounds to.
proof fn lemma_choice(num: nat, den: nat, mantissa: nat, scale: nat, up: bool)
    requires
        den > 0,
        scale < 2046,
        mantissa < 2 * HIDDEN,
        scale == 0 || mantissa >= HIDDEN,
        mantissa * (pow2(scale) * den) <= num < (mantissa + 1) * (pow2(scale) * den),
        up ==> 2 * num > (2 * mantissa + 1) * (pow2(scale) * den) || (2 * num == (2 * mantissa
            + 1) * (pow2(scale) * den) && mantissa % 2 == 1),
        !up ==> 2 * num < (2 * mantissa + 1) * (pow2(scale) * den) || (2 * num == (2 * mantissa
            + 1) * (pow2(scale) * den) && mantissa % 2 == 0),
    ensures
        rounds_to(
            num,
            den,
            (scale * HIDDEN as nat + mantissa + if up {
                1nat
            } else {
                0nat
            }) as nat,
        ),
{
    let size = (scale * HIDDEN as nat + mantissa) as nat;
    let p = pow2(scale);
    lemma_units_at(scale, mantissa);
    lemma_units_at(scale, mantissa + 1);
    assert(size < INFINITE);
    let here = units(size);
    let next = units(size + 1);
    assert((here + next) * den == (2 * mantissa + 1) * (p * den)) by (nonlinear_arith)
        requires
            here == mantissa * p,
            next == (mantissa + 1) * p,
    ;
    assert(here * den == mantissa * (p * den)) by (nonlinear_arith)
        requires
            here == mantissa * p,
    ;
    assert(next * den == (mantissa + 1) * (p * den)) by (nonlinear_arith)
        requires
            next == (mantissa + 1) * p,
    ;
    assert(size % 2 == mantissa % 2);
    if up {
        if size + 1 < INFINITE {
            lemma_units_step(size + 1);
            let after = units(size + 2);
            assert(2 * num < (next + after) * den) by (nonlinear_arith)
                requires
                    num < next * den,
                    next < after,
            ;
        }
    } else if size > 0 {
        lemma_units_step((size - 1) as nat);
        let before = units((size - 1) as nat);
        assert((before + here) * den < 2 * num) by (nonlinear_arith)
            requires
                here * den <= num,
                before < here,
                den > 0,
        ;
    }
}

/// The size that `num / den` units round to, where they are `m` times two to
/// the power of `e`, or that and something more that was cut off.
pub(crate) fn round(
    m: u128,
    e: i32,
    cut: bool,
    Ghost(num): Ghost<nat>,
    Ghost(den): Ghost<nat>,
) -> (size: u64)
    requires
        den > 0,
        m < 0x8000_0000_0000_0000_0000_0000_0000_0000,
        -5000 <= e <= 5000,
        cut ==> m >= 0x80_0000_0000_0000,
        scaled(m as nat, e as int, cut, num, den),
    ensures
        size <= INFINITE,
        rounds_to(num, den, size as nat),
        size == nearest(num, den),
{
    let size: u64 = round_parts(m, e, cut, Ghost(num), Ghost(den));
    proof {
        lemma_nearest(num, den, size as nat);
    }
    size
}

fn round_parts(
    m: u128,
    e: i32,
    cut: bool,
    Ghost(num): Ghost<nat>,
    Ghost(den): Ghost<nat>,
) -> (size: u64)
    requires
        den > 0,
        m < 0x8000_0000_0000_0000_0000_0000_0000_0000,
        -5000 <= e <= 5000,
        cut ==> m >= 0x80_0000_0000_0000,
        scaled(m as nat, e as int, cut, num, den),
    ensures
        rounds_to(num, den, size as nat),
{
    proof {
        lemma_powers();
        assert(pow2(127) == 0x8000_0000_0000_0000_0000_0000_0000_0000) by {
            lemma2_to64();
            lemma2_to64_rest();
            lemma_pow2_adds(63, 64);
        }
        assert(pow2(55) == 0x80_0000_0000_0000) by {
            lemma2_to64_rest();
        }
    }
    if m == 0 {
        proof {
            let down = pow2(above_zero(-e));
            lemma_pow2_pos(above_zero(-e));
            let up = pow2(above_zero(e as int));
            assert(0 * up * den == 0) by (nonlinear_arith);
            assert(num == 0) by (nonlinear_arith)
                requires
                    num * down == 0,
                    down > 0,
            ;
            lemma_exact(0, den);
            assert(0 * den == 0) by (nonlinear_arith);
        }
        return 0;
    }
    let length: i32 = bit_length(m) as i32;
    proof {
        if cut && length <= 55 {
            if length < 55 {
                lemma_pow2_strictly_increases(length as nat, 55);
            }
            assert(false);
        }
    }
    assert(length <= 127);
    let shift: i32 = if length - 53 > -e {
        length - 53
    } else {
        -e
    };
    if shift <= 0 {
        let spare: i32 = 53 - length;
        let move_up: i32 = if spare < e {
            spare
        } else {
            e
        };
        let scale: i32 = e - move_up;
        let factor: u128 = power(move_up as u32);
        proof {
            lemma_pow2_pos(move_up as nat);
            lemma_pow2_adds(length as nat, move_up as nat);
            if length + move_up < 53 {
                lemma_pow2_strictly_increases((length + move_up) as nat, 53);
            }
            let p = pow2(length as nat);
            assert(m * factor < p * factor) by (nonlinear_arith)
                requires
                    m < p,
                    factor > 0,
            ;
        }
        let mantissa: u128 = m * factor;
        proof {
            lemma_pow2_adds(scale as nat, move_up as nat);
            let q = pow2(scale as nat);
            assert(m * (q * factor) * den == mantissa * q * den) by (nonlinear_arith)
                requires
                    mantissa == m * factor,
            ;
            assert(num * 1 == num);
            if scale > 0 {
                lemma_pow2_adds((length - 1) as nat, move_up as nat);
                let p = pow2((length - 1) as nat);
                assert(p * factor <= m * factor) by (nonlinear_arith)
                    requires
                        p <= m,
                        factor >= 0,
                ;
                assert(mantissa >= HIDDEN);
            }
            assert(mantissa * (q * den) == num) by (nonlinear_arith)
                requires
                    mantissa * q * den == num,
            ;
        }
        if scale >= 2046 {
            proof {
                lemma_beyond(num, den, mantissa as nat, scale as nat);
            }
            return INFINITE;
        }
        let size: u64 = scale as u64 * HIDDEN + mantissa as u64;
        proof {
            lemma_units_at(scale as nat, mantissa as nat);
            let q = pow2(scale as nat);
            assert(mantissa * q * den == num) by (nonlinear_arith)
                requires
                    mantissa * (q * den) == num,
            ;
            lemma_exact(size as nat, den);
        }
        return size;
    }
    let scale: i32 = e + shift;
    proof {
        lemma_shifted(m as nat, e as int, cut, num, den, scale as nat, shift as nat);
        lemma_pow2_pos(scale as nat);
        lemma_pow2_unfold(shift as nat);
        lemma_pow2_pos((shift - 1) as nat);
    }
    let ghost s = pow2(shift as nat);
    let ghost half = pow2((shift - 1) as nat);
    let ghost d = pow2(scale as nat) * den;
    assert(d > 0) by (nonlinear_arith)
        requires
            pow2(scale as nat) > 0,
            den > 0,
            d == pow2(scale as nat) * den,
    ;
    if shift > length {
        assert(scale == 0);
        proof {
            if length < shift - 1 {
                lemma_pow2_strictly_increases(length as nat, (shift - 1) as nat);
            }
            lemma_between(0, m as nat, cut, s, half, d, num);
            lemma_choice(num, den, 0, 0, false);
        }
        return 0;
    }
    if shift == 127 {
        // Only where length is 127 too: all but the highest digit is dropped.
        let middle: u128 = power(126);
        let up: bool = m > middle || (m == middle && cut);
        proof {
            assert(scale == 0);
            lemma_between(0, m as nat, cut, s, half, d, num);
            lemma_choice(num, den, 0, 0, up);
        }
        return if up {
            1
        } else {
            0
        };
    }
    let divisor: u128 = power(shift as u32);
    let middle: u128 = power(shift as u32 - 1);
    let mantissa: u128 = m / divisor;
    let rest: u128 = m % divisor;
    assert(m == mantissa * divisor + rest) by {
        vstd::arithmetic::div_mod::lemma_fundamental_div_mod(m as int, divisor as int);
        assert(divisor * mantissa == mantissa * divisor) by (nonlinear_arith);
    }
    let up: bool = rest > middle || (rest == middle && (cut || mantissa % 2 == 1));
    proof {
        lemma_between(mantissa as nat, rest as nat, cut, s, half, d, num);
        lemma_pow2_adds((length - shift) as nat, shift as nat);
        let p = pow2((length - shift) as nat);
        assert(mantissa < p) by (nonlinear_arith)
            requires
                mantissa * divisor + rest < p * divisor,
                divisor > 0,
                rest >= 0,
        ;
        if length - shift < 53 {
            lemma_pow2_strictly_increases((length - shift) as nat, 53);
        }
        if scale > 0 {
            assert(shift == length - 53);
            lemma_pow2_adds(52, shift as nat);
            let h = HIDDEN as nat;
            assert(mantissa >= h) by (nonlinear_arith)
                requires
                    mantissa * divisor + rest >= h * divisor,
                    rest < divisor,
            ;
        }
    }
    if scale >= 2046 {
        proof {
            lemma_beyond(num, den, mantissa as nat, scale as nat);
        }
        return INFINITE;
    }
    proof {
        lemma_choice(num, den, mantissa as nat, scale as nat, up);
    }
    let size: u64 = scale as u64 * HIDDEN + mantissa as u64;
    if up {
        size + 1
    } else {
        size
    }
}

} // verus!
