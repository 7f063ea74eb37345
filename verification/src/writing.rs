//! What is written can be read again: laws of texts and of the numbers in them.

use crate::double::{units, Double, FINEST};
use crate::fixed::{half_even, with_point};
use crate::table::text_less;
use crate::text::{
    all_digits, ascii_lower, behind_last, decimal, digit_char, digit_value, digits_value,
    first_index, is_control, is_digit, is_space, joined, lemma_word_length, lines, once,
    padded_decimal, pieces, signed, signed_decimal, trim_end, trim_start, trimmed, unsigned,
    without_return, word_length, words,
};
use vstd::arithmetic::div_mod::lemma_fundamental_div_mod;
use vstd::arithmetic::power::{lemma_pow1, lemma_pow_adds, lemma_pow_positive, pow};
use vstd::arithmetic::power2::{lemma_pow2_pos, pow2};
use vstd::math::abs;
use vstd::prelude::*;

verus! {

// ---------------------------------------------------------------------------
// Numbers
// ---------------------------------------------------------------------------

/// The digits of a number count it, and none but that of nothing begins with a zero.
pub proof fn lemma_decimal_counts(n: nat)
    ensures
        all_digits(decimal(n)),
        digits_value(decimal(n)) == n,
        n > 0 ==> decimal(n)[0] != '0',
        n == 0 ==> decimal(n) == seq!['0'],
    decreases n,
{
    let last = digit_char(n % 10);
    assert(is_digit(last));
    assert(digit_value(last) == n % 10);
    if n < 10 {
        assert(decimal(n).drop_last() =~= Seq::<char>::empty());
        assert(digits_value(Seq::<char>::empty()) == 0);
    } else {
        let front = decimal(n / 10);
        lemma_decimal_counts(n / 10);
        assert(decimal(n).drop_last() =~= front);
        assert forall|i: int| 0 <= i < decimal(n).len() implies is_digit(
            #[trigger] decimal(n)[i],
        ) by {
            if i < front.len() {
                assert(is_digit(front[i]));
            }
        }
    }
}

/// A number that is written is read again, where it is no larger than what can be read.
pub proof fn lemma_decimal_reads_back(n: nat, limit: nat)
    ensures
        unsigned(decimal(n), limit) == if n <= limit {
            Some(n)
        } else {
            None
        },
{
    lemma_decimal_counts(n);
    assert(is_digit(decimal(n)[0]));
}

/// A number with a sign that is written is read again.
pub proof fn lemma_signed_decimal_reads_back(n: int)
    requires
        i64::MIN <= n <= i64::MAX,
    ensures
        signed(signed_decimal(n)) == Some(n),
{
    if n < 0 {
        lemma_decimal_counts((-n) as nat);
        assert(signed_decimal(n).skip(1) =~= decimal((-n) as nat));
    } else {
        lemma_decimal_counts(n as nat);
        assert(is_digit(decimal(n as nat)[0]));
        lemma_decimal_reads_back(n as nat, 0x7fff_ffff_ffff_ffff);
    }
}

/// Different numbers are written differently.
pub proof fn lemma_decimals_differ(a: nat, b: nat)
    requires
        decimal(a) == decimal(b),
    ensures
        a == b,
{
    lemma_decimal_counts(a);
    lemma_decimal_counts(b);
}

// ---------------------------------------------------------------------------
// White space, words and lines
// ---------------------------------------------------------------------------

/// Whether a text is white space alone.
pub open spec fn is_blank(s: Seq<char>) -> bool {
    forall|i: int| 0 <= i < s.len() ==> is_space(#[trigger] s[i])
}

/// Whether a text holds no white space.
pub open spec fn is_solid(s: Seq<char>) -> bool {
    forall|i: int| 0 <= i < s.len() ==> !is_space(#[trigger] s[i])
}

proof fn lemma_trim_start(front: Seq<char>, s: Seq<char>)
    requires
        is_blank(front),
        s.len() > 0 ==> !is_space(s[0]),
    ensures
        trim_start(front + s) == s,
    decreases front.len(),
{
    if front.len() > 0 {
        assert(is_space(front[0]));
        assert((front + s).skip(1) =~= front.skip(1) + s);
        assert forall|i: int| 0 <= i < front.skip(1).len() implies is_space(
            #[trigger] front.skip(1)[i],
        ) by {
            assert(is_space(front[i + 1]));
        }
        lemma_trim_start(front.skip(1), s);
    } else {
        assert(front + s =~= s);
    }
}

proof fn lemma_trim_end(s: Seq<char>, back: Seq<char>)
    requires
        is_blank(back),
        s.len() > 0 ==> !is_space(s.last()),
    ensures
        trim_end(s + back) == s,
    decreases back.len(),
{
    if back.len() > 0 {
        assert(is_space(back[back.len() - 1]));
        assert((s + back).drop_last() =~= s + back.drop_last());
        assert forall|i: int| 0 <= i < back.drop_last().len() implies is_space(
            #[trigger] back.drop_last()[i],
        ) by {
            assert(is_space(back[i]));
        }
        lemma_trim_end(s, back.drop_last());
    } else {
        assert(s + back =~= s);
    }
}

/// White space around a text is cut off, and nothing else of it.
pub proof fn lemma_trimmed(front: Seq<char>, s: Seq<char>, back: Seq<char>)
    requires
        is_blank(front),
        is_blank(back),
        s.len() > 0 ==> !is_space(s[0]) && !is_space(s.last()),
    ensures
        trimmed(front + s + back) == s,
{
    assert(front + s + back =~= front + (s + back));
    if s.len() > 0 {
        lemma_trim_start(front, s + back);
        lemma_trim_end(s, back);
    } else {
        let all = front + back;
        assert(front + s + back =~= all + Seq::<char>::empty());
        assert forall|i: int| 0 <= i < all.len() implies is_space(#[trigger] all[i]) by {
            if i < front.len() {
                assert(is_space(front[i]));
            } else {
                assert(is_space(back[i - front.len()]));
            }
        }
        lemma_trim_start(all, Seq::<char>::empty());
        lemma_trim_end(s, Seq::<char>::empty());
        assert(s =~= Seq::<char>::empty());
        assert(s + Seq::<char>::empty() =~= Seq::<char>::empty());
    }
}

proof fn lemma_solid_length(s: Seq<char>)
    requires
        is_solid(s),
    ensures
        word_length(s) == s.len(),
    decreases s.len(),
{
    if s.len() > 0 {
        assert(!is_space(s[0]));
        assert forall|i: int| 0 <= i < s.skip(1).len() implies !is_space(
            #[trigger] s.skip(1)[i],
        ) by {
            assert(!is_space(s[i + 1]));
        }
        lemma_solid_length(s.skip(1));
    }
}

/// A text without white space is one word.
pub proof fn lemma_one_word(s: Seq<char>)
    requires
        is_solid(s),
        s.len() > 0,
    ensures
        words(s) == seq![s],
{
    lemma_solid_length(s);
    assert(!is_space(s[0]));
    assert(s.take(s.len() as int) =~= s);
    assert(s.skip(s.len() as int) =~= Seq::<char>::empty());
    assert(words(Seq::<char>::empty()) == Seq::<Seq<char>>::empty());
}

proof fn lemma_word_before_space(a: Seq<char>, c: char, b: Seq<char>)
    requires
        is_space(c),
    ensures
        word_length(a.push(c) + b) == word_length(a),
    decreases a.len(),
{
    let s = a.push(c) + b;
    if a.len() > 0 && !is_space(a[0]) {
        assert(s.skip(1) =~= a.skip(1).push(c) + b);
        lemma_word_before_space(a.skip(1), c, b);
    }
}

/// White space parts the words before it from those behind it.
pub proof fn lemma_words_are_parted(a: Seq<char>, c: char, b: Seq<char>)
    requires
        is_space(c),
    ensures
        words(a.push(c) + b) == words(a) + words(b),
    decreases a.len(),
{
    let s = a.push(c) + b;
    if a.len() == 0 {
        assert(s.skip(1) =~= b);
        assert(words(a) + words(b) =~= words(b));
    } else if is_space(a[0]) {
        assert(s.skip(1) =~= a.skip(1).push(c) + b);
        lemma_words_are_parted(a.skip(1), c, b);
    } else {
        let n = word_length(a) as int;
        lemma_word_length(a);
        lemma_word_before_space(a, c, b);
        assert(s.take(n) =~= a.take(n));
        assert(s.skip(n) =~= a.skip(n).push(c) + b);
        lemma_words_are_parted(a.skip(n), c, b);
        assert(seq![a.take(n)] + (words(a.skip(n)) + words(b)) =~= (seq![a.take(n)] + words(
            a.skip(n),
        )) + words(b));
    }
}

/// The first of a character stands behind what does not hold it.
pub proof fn lemma_first_index(a: Seq<char>, c: char, b: Seq<char>)
    requires
        !a.contains(c),
    ensures
        first_index(a.push(c) + b, c) == a.len(),
        first_index(a, c) == a.len(),
    decreases a.len(),
{
    let s = a.push(c) + b;
    if a.len() > 0 {
        assert(a[0] != c);
        assert forall|i: int| 0 <= i < a.skip(1).len() implies a.skip(1)[i] != c by {
            assert(a[i + 1] != c);
        }
        assert(s.skip(1) =~= a.skip(1).push(c) + b);
        lemma_first_index(a.skip(1), c, b);
    }
}

/// A line feed ends a line, and a carriage return before it is part of the end.
pub proof fn lemma_lines_are_parted(a: Seq<char>, b: Seq<char>)
    requires
        !a.contains('\n'),
    ensures
        lines(a.push('\n') + b) == seq![without_return(a)] + lines(b),
        a.len() > 0 ==> lines(a) == seq![a],
{
    let s = a.push('\n') + b;
    lemma_first_index(a, '\n', b);
    assert(s.take(a.len() as int) =~= a);
    assert(s.skip(a.len() as int + 1) =~= b);
}

/// A text is parted at the first of the separators.
pub proof fn lemma_parted_once(a: Seq<char>, separator: char, b: Seq<char>)
    requires
        !a.contains(separator),
    ensures
        once(a.push(separator) + b, separator) == Some((a, b)),
        once(a, separator) is None,
{
    let s = a.push(separator) + b;
    lemma_first_index(a, separator, b);
    assert(s.take(a.len() as int) =~= a);
    assert(s.skip(a.len() as int + 1) =~= b);
}

/// The pieces between separators are what stands before the first and the pieces behind it.
pub proof fn lemma_pieces_are_parted(a: Seq<char>, separator: char, b: Seq<char>)
    requires
        !a.contains(separator),
    ensures
        pieces(a.push(separator) + b, separator) == seq![a] + pieces(b, separator),
        pieces(a, separator) == seq![a],
{
    let s = a.push(separator) + b;
    lemma_first_index(a, separator, b);
    assert(s.take(a.len() as int) =~= a);
    assert(s.skip(a.len() as int + 1) =~= b);
}

/// The place behind the last of a character, where what follows does not hold it.
pub proof fn lemma_behind_last(a: Seq<char>, c: char, b: Seq<char>)
    requires
        !b.contains(c),
    ensures
        behind_last(a.push(c) + b, c) == a.len() + 1,
        behind_last(b, c) == 0,
    decreases b.len(),
{
    let s = a.push(c) + b;
    if b.len() > 0 {
        assert(b[b.len() - 1] != c);
        assert forall|i: int| 0 <= i < b.drop_last().len() implies b.drop_last()[i] != c by {
            assert(b[i] != c);
        }
        assert(s.drop_last() =~= a.push(c) + b.drop_last());
        lemma_behind_last(a, c, b.drop_last());
    }
}

// ---------------------------------------------------------------------------
// Numbers with places behind a point
// ---------------------------------------------------------------------------

proof fn lemma_decimal_length(n: nat, places: nat)
    requires
        n < pow(10, places),
        places > 0,
    ensures
        decimal(n).len() <= places,
    decreases n,
{
    if n >= 10 {
        if places == 1 {
            lemma_pow1(10);
        } else {
            lemma_pow_adds(10, 1, (places - 1) as nat);
            lemma_pow1(10);
            assert(n / 10 < pow(10, (places - 1) as nat));
            lemma_decimal_length(n / 10, (places - 1) as nat);
        }
    }
}

proof fn lemma_zeros_count_nothing(zeros: Seq<char>, s: Seq<char>)
    requires
        forall|i: int| 0 <= i < zeros.len() ==> #[trigger] zeros[i] == '0',
    ensures
        digits_value(zeros + s) == digits_value(s),
    decreases zeros.len() + s.len(),
{
    let all = zeros + s;
    if s.len() > 0 {
        assert(all.drop_last() =~= zeros + s.drop_last());
        lemma_zeros_count_nothing(zeros, s.drop_last());
    } else if zeros.len() > 0 {
        assert(all =~= zeros);
        assert(all.drop_last() =~= zeros.drop_last() + s);
        assert(zeros[zeros.len() - 1] == '0');
        lemma_zeros_count_nothing(zeros.drop_last(), s);
    } else {
        assert(all =~= s);
    }
}

/// A number with zeros before it has as many digits as it is to have, and counts the same.
pub proof fn lemma_padded_decimal(n: nat, places: nat)
    requires
        n < pow(10, places),
        places > 0,
    ensures
        padded_decimal(n, places).len() == places,
        all_digits(padded_decimal(n, places)),
        digits_value(padded_decimal(n, places)) == n,
{
    let digits = decimal(n);
    lemma_decimal_length(n, places);
    lemma_decimal_counts(n);
    if digits.len() < places {
        let zeros = Seq::new((places - digits.len()) as nat, |i: int| '0');
        lemma_zeros_count_nothing(zeros, digits);
        assert forall|i: int| 0 <= i < places implies is_digit(
            #[trigger] padded_decimal(n, places)[i],
        ) by {
            if i >= zeros.len() {
                assert(is_digit(digits[i - zeros.len()]));
            }
        }
    }
}

/// Whether a text writes so many parts of ten to the power of `places`: digits before a
/// point and as many behind it as there are places, or digits alone where there are none.
pub open spec fn writes_parts(text: Seq<char>, parts: nat, places: nat) -> bool {
    if places == 0 {
        all_digits(text) && digits_value(text) == parts
    } else {
        match once(text, '.') {
            Some((whole, rest)) => {
                &&& all_digits(whole)
                &&& all_digits(rest)
                &&& rest.len() == places
                &&& digits_value(whole) * pow(10, places) + digits_value(rest) == parts
            },
            None => false,
        }
    }
}

/// A number of parts that is written with a point can be read again.
pub proof fn lemma_with_point(parts: nat, places: nat)
    ensures
        writes_parts(with_point(parts, places), parts, places),
{
    lemma_decimal_counts(parts);
    if places > 0 {
        let ten = pow(10, places);
        lemma_pow_positive(10, places);
        let whole = parts / (ten as nat);
        let rest = parts % (ten as nat);
        lemma_fundamental_div_mod(parts as int, ten);
        lemma_decimal_counts(whole);
        lemma_padded_decimal(rest, places);
        let front = decimal(whole);
        let back = padded_decimal(rest, places);
        assert(!front.contains('.')) by {
            assert forall|i: int| 0 <= i < front.len() implies front[i] != '.' by {
                assert(is_digit(front[i]));
            }
        }
        lemma_parted_once(front, '.', back);
        assert(whole * ten == ten * whole) by (nonlinear_arith);
    }
}

/// The integer nearest to a fraction is off by half of one at most.
pub proof fn lemma_half_even_is_near(num: nat, den: nat)
    requires
        den > 0,
    ensures
        2 * abs(half_even(num, den) * den - num) <= den,
{
    let q = num / den;
    let r = num % den;
    lemma_fundamental_div_mod(num as int, den as int);
    assert(q * den == den * q) by (nonlinear_arith);
    assert((q + 1) * den == q * den + den) by (nonlinear_arith);
}

/// Whether digits write so many units to so many places, rounded to the nearest: they are off
/// by no more than half of the last place.
pub open spec fn writes_units(digits: Seq<char>, count: nat, places: nat) -> bool {
    exists|parts: nat| #[trigger]
        writes_parts(digits, parts, places) && 2 * abs(
            parts * pow2(FINEST as nat) - count * pow(10, places),
        ) <= pow2(FINEST as nat)
}

/// Whether a text writes a number to so many places, rounded to the nearest, with a minus
/// sign before it where the number is negative.
pub open spec fn writes_number(text: Seq<char>, number: Double, places: nat) -> bool {
    if number.negative() {
        &&& text.len() > 0 && text[0] == '-'
        &&& writes_units(text.skip(1), units(number.size()), places)
    } else {
        writes_units(text, units(number.size()), places)
    }
}

/// A number is written to the last place that is shown, rounded to the nearest.
pub proof fn lemma_fixed_writes_the_number(number: Double, places: nat)
    requires
        number.finite(),
    ensures
        writes_number(number.fixed(places), number, places),
{
    let one = pow2(FINEST as nat);
    let ten = pow(10, places) as nat;
    let parts = number.scaled_integer(places);
    lemma_pow2_pos(FINEST as nat);
    lemma_pow_positive(10, places);
    lemma_half_even_is_near(units(number.size()) * ten, one);
    lemma_with_point(parts, places);
    let text = with_point(parts, places);
    assert(writes_units(text, units(number.size()), places));
    if number.negative() {
        assert((seq!['-'] + text).skip(1) =~= text);
    } else {
        assert(Seq::<char>::empty() + text =~= text);
    }
}

/// A number that is cut to an integer loses less than one.
pub proof fn lemma_truncated_is_the_whole_part(number: Double)
    requires
        number.finite(),
        !number.negative(),
        number.truncated() < u64::MAX,
    ensures
        ({
            let one = pow2(FINEST as nat);
            number.truncated() * one <= number.value() < (number.truncated() + 1) * one
        }),
{
    let one = pow2(FINEST as nat);
    let u = units(number.size());
    let q = u / one;
    lemma_pow2_pos(FINEST as nat);
    lemma_fundamental_div_mod(u as int, one as int);
    assert(q * one == one * q) by (nonlinear_arith);
    assert((q + 1) * one == q * one + one) by (nonlinear_arith);
}

/// A number that is rounded to an integer is off by half of one at most.
pub proof fn lemma_nearest_integer_is_near(number: Double)
    requires
        number.finite(),
        !number.negative(),
        number.nearest_integer() < u64::MAX,
    ensures
        2 * abs(number.nearest_integer() * pow2(FINEST as nat) - number.value()) <= pow2(
            FINEST as nat,
        ),
{
    let one = pow2(FINEST as nat);
    let u = units(number.size());
    let q = (2 * u + one) / (2 * one);
    lemma_pow2_pos(FINEST as nat);
    lemma_fundamental_div_mod((2 * u + one) as int, (2 * one) as int);
    assert((2 * one) * q == 2 * (q * one)) by (nonlinear_arith);
}

// ---------------------------------------------------------------------------
// The order of texts
// ---------------------------------------------------------------------------

/// Two texts stand in the order of the first characters that differ, and a text stands before
/// every longer one that begins with it.
pub proof fn lemma_texts_in_order(
    front: Seq<char>,
    a: char,
    x: Seq<char>,
    b: char,
    y: Seq<char>,
)
    ensures
        a < b ==> text_less(front.push(a) + x, front.push(b) + y),
        a < b ==> !text_less(front.push(b) + y, front.push(a) + x),
        text_less(front, front.push(a) + x),
        !text_less(front.push(a) + x, front),
    decreases front.len(),
{
    let left = front.push(a) + x;
    let right = front.push(b) + y;
    if front.len() > 0 {
        assert(left.skip(1) =~= front.skip(1).push(a) + x);
        assert(right.skip(1) =~= front.skip(1).push(b) + y);
        lemma_texts_in_order(front.skip(1), a, x, b, y);
    }
}

// ---------------------------------------------------------------------------
// Characters and lists
// ---------------------------------------------------------------------------

/// Blanks, tabs and the ends of lines are white space; what can be seen of ASCII is not, and is
/// no control character.
pub proof fn lemma_kinds_of_characters(c: char)
    ensures
        c == ' ' || c == '\t' || c == '\n' || c == '\r' ==> is_space(c),
        '!' <= c <= '~' ==> !is_space(c) && !is_control(c),
        c < ' ' ==> is_control(c),
        c == ' ' ==> !is_control(c),
        is_space(c) && c < '\u{80}' ==> c == ' ' || is_control(c),
{
}

/// Letters of ASCII are the same whatever their case, and no two others are.
pub proof fn lemma_case_does_not_matter(a: char, b: char)
    ensures
        ascii_lower(ascii_lower(a)) == ascii_lower(a),
        'A' <= a <= 'Z' && b as int == a as int + ('a' as int - 'A' as int) ==> ascii_lower(a) == b
            && ascii_lower(b) == b,
        !('A' <= a <= 'Z') ==> ascii_lower(a) == a,
{
}

/// Texts are joined one behind the other, with the separator between any two and nowhere else.
pub proof fn lemma_texts_are_joined(texts: Seq<Seq<char>>, next: Seq<char>, separator: Seq<char>)
    ensures
        joined(Seq::empty(), separator).len() == 0,
        joined(seq![next], separator) == next,
        texts.len() > 0 ==> joined(texts.push(next), separator) == joined(texts, separator)
            + separator + next,
{
    assert(texts.push(next).drop_last() =~= texts);
}

/// Texts that are joined by a character that none of them holds are parted again.
pub proof fn lemma_joined_texts_are_parted(texts: Seq<Seq<char>>, c: char)
    requires
        texts.len() > 0,
        forall|i: int| 0 <= i < texts.len() ==> !(#[trigger] texts[i]).contains(c),
    ensures
        pieces(joined(texts, seq![c]), c) == texts,
    decreases texts.len(),
{
    if texts.len() == 1 {
        let only = texts[0];
        lemma_no_separator(only, c);
        assert(seq![only] =~= texts);
    } else {
        lemma_joined_from_the_front(texts, seq![c]);
        let rest = texts.skip(1);
        assert forall|i: int| 0 <= i < rest.len() implies !(#[trigger] rest[i]).contains(c) by {
            assert(rest[i] == texts[i + 1]);
        }
        lemma_joined_texts_are_parted(rest, c);
        let tail = joined(rest, seq![c]);
        lemma_pieces_are_parted(texts[0], c, tail);
        assert(texts[0] + seq![c] + tail =~= texts[0].push(c) + tail);
        assert(seq![texts[0]] + rest =~= texts);
    }
}

proof fn lemma_joined_from_the_front(texts: Seq<Seq<char>>, separator: Seq<char>)
    requires
        texts.len() > 1,
    ensures
        joined(texts, separator) == texts[0] + separator + joined(texts.skip(1), separator),
    decreases texts.len(),
{
    let less = texts.drop_last();
    let rest = texts.skip(1);
    if texts.len() == 2 {
        assert(less.len() == 1 && rest.len() == 1);
        assert(rest[0] == texts.last());
        assert(joined(less, separator) == texts[0]);
        assert(joined(rest, separator) == texts.last());
    } else {
        lemma_joined_from_the_front(less, separator);
        assert(less.skip(1) =~= rest.drop_last());
        assert(rest.last() == texts.last());
        let middle = joined(less.skip(1), separator);
        assert(less[0] == texts[0]);
        assert(joined(rest, separator) == middle + separator + texts.last());
        assert(texts[0] + separator + middle + separator + texts.last() =~= texts[0] + separator + (
        middle + separator + texts.last()));
    }
}

/// What does not hold a character is not parted at it.
pub proof fn lemma_no_separator(s: Seq<char>, c: char)
    requires
        !s.contains(c),
    ensures
        first_index(s, c) == s.len(),
        once(s, c) is None,
        pieces(s, c) == seq![s],
    decreases s.len(),
{
    if s.len() > 0 {
        assert(s[0] != c);
        let rest = s.skip(1);
        assert forall|i: int| 0 <= i < rest.len() implies rest[i] != c by {
            assert(rest[i] == s[i + 1]);
        }
        lemma_no_separator(rest, c);
    }
}

/// Halves are rounded to the even integer.
pub proof fn lemma_halves_are_rounded_to_even(n: nat, den: nat)
    requires
        den > 0,
    ensures
        half_even((2 * n + 1) * den, 2 * den) % 2 == 0,
        half_even(n * den, den) == n,
{
    assert((2 * n + 1) * den == n * (2 * den) + den) by (nonlinear_arith);
    assert(((2 * n + 1) * den) / (2 * den) == n && ((2 * n + 1) * den) % (2 * den) == den) by {
        vstd::arithmetic::div_mod::lemma_fundamental_div_mod_converse(
            ((2 * n + 1) * den) as int,
            (2 * den) as int,
            n as int,
            den as int,
        );
    }
    assert((n * den) / den == n && (n * den) % den == 0) by {
        vstd::arithmetic::div_mod::lemma_fundamental_div_mod_converse(
            (n * den) as int,
            den as int,
            n as int,
            0,
        );
    }
}

} // verus!
