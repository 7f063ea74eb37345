//! Text as a sequence of characters: splitting, trimming, searching and
//! reading of decimal integers, in the way that procfs and sysfs need them.

use vstd::prelude::*;
use vstd::slice::slice_subrange;

verus! {

/// `String::push` of std: the character is put behind the text.
pub assume_specification [String::push](text: &mut String, character: char)
    ensures
        final(text)@ == old(text)@.push(character),
;

/// The texts that a list holds, each as its characters.
pub open spec fn views<T: View>(items: Seq<T>) -> Seq<T::V> {
    items.map_values(|item: T| item@)
}

/// The text of an optional string.
pub open spec fn optional_view<T: View>(item: Option<T>) -> Option<T::V> {
    match item {
        Some(inner) => Some(inner@),
        None => None,
    }
}

/// Viewing a list item by item commutes with pushing.
pub proof fn lemma_views_push<T: View>(items: Seq<T>, item: T)
    ensures
        views(items.push(item)) == views(items).push(item@),
{
    assert(views(items.push(item)) =~= views(items).push(item@));
}

// ---------------------------------------------------------------------------
// Characters
// ---------------------------------------------------------------------------

/// Unicode's White_Space property.
pub open spec fn is_space(c: char) -> bool {
    ||| '\u{9}' <= c <= '\u{d}'
    ||| c == '\u{20}'
    ||| c == '\u{85}'
    ||| c == '\u{a0}'
    ||| c == '\u{1680}'
    ||| '\u{2000}' <= c <= '\u{200a}'
    ||| c == '\u{2028}'
    ||| c == '\u{2029}'
    ||| c == '\u{202f}'
    ||| c == '\u{205f}'
    ||| c == '\u{3000}'
}

/// Whether a character is white space in Unicode's sense.
pub fn space(c: char) -> (result: bool)
    ensures
        result == is_space(c),
{
    match c {
        '\u{9}'..='\u{d}' | '\u{20}' | '\u{85}' | '\u{a0}' | '\u{1680}' => true,
        '\u{2000}'..='\u{200a}' | '\u{2028}' | '\u{2029}' => true,
        '\u{202f}' | '\u{205f}' | '\u{3000}' => true,
        _ => false,
    }
}

/// Unicode's general category Cc.
pub open spec fn is_control(c: char) -> bool {
    c <= '\u{1f}' || '\u{7f}' <= c <= '\u{9f}'
}

/// Whether a character is a control character in Unicode's sense.
pub fn control(c: char) -> (result: bool)
    ensures
        result == is_control(c),
{
    match c {
        '\u{0}'..='\u{1f}' | '\u{7f}'..='\u{9f}' => true,
        _ => false,
    }
}

/// The decimal digits of ASCII.
pub open spec fn is_digit(c: char) -> bool {
    '0' <= c <= '9'
}

/// What a decimal digit counts.
pub open spec fn digit_value(c: char) -> nat {
    (c as int - '0' as int) as nat
}

/// The decimal digit that counts `value`.
pub open spec fn digit_char(value: nat) -> char {
    ('0' as int + value) as char
}

/// A letter of ASCII in lower case; any other character as it is.
pub open spec fn ascii_lower(c: char) -> char {
    if 'A' <= c <= 'Z' {
        (c as int + 32) as char
    } else {
        c
    }
}

/// Every letter of ASCII in lower case.
pub open spec fn ascii_lowercase(s: Seq<char>) -> Seq<char> {
    s.map_values(|c: char| ascii_lower(c))
}

/// A letter of ASCII in lower case; any other character as it is.
pub fn lower(c: char) -> (result: char)
    ensures
        result == ascii_lower(c),
{
    match c {
        'A'..='Z' => ((c as u8) + 32) as char,
        _ => c,
    }
}

// ---------------------------------------------------------------------------
// From strings to characters and back
// ---------------------------------------------------------------------------

/// The characters of a string.
pub fn characters(s: &str) -> (result: Vec<char>)
    ensures
        result@ == s@,
{
    let mut result: Vec<char> = Vec::new();
    for c in it: s.chars()
        invariant
            result@ == it.seq().take(it.index()),
            it.seq() == s@,
    {
        result.push(c);
    }
    result
}

/// Puts characters behind a string.
pub fn push_characters(out: &mut String, s: &[char])
    ensures
        final(out)@ == old(out)@ + s@,
{
    let mut i: usize = 0;
    while i < s.len()
        invariant
            i <= s@.len(),
            out@ == old(out)@ + s@.take(i as int),
        decreases s@.len() - i,
    {
        out.push(s[i]);
        i += 1;
        assert(s@.take(i as int) == s@.take(i - 1).push(s@[i - 1]));
    }
    assert(s@.take(i as int) == s@);
}

/// The string that holds these characters.
pub fn string_of(s: &[char]) -> (result: String)
    ensures
        result@ == s@,
{
    let mut result: String = String::new();
    push_characters(&mut result, s);
    assert(Seq::<char>::empty() + s@ == s@);
    result
}

/// Whether characters spell a string.
pub fn spells(s: &[char], expected: &str) -> (result: bool)
    ensures
        result == (s@ == expected@),
{
    let other: Vec<char> = characters(expected);
    same(s, other.as_slice())
}

/// Whether two lists of characters are the same.
pub fn same(a: &[char], b: &[char]) -> (result: bool)
    ensures
        result == (a@ == b@),
{
    if a.len() != b.len() {
        return false;
    }
    let mut i: usize = 0;
    while i < a.len()
        invariant
            a@.len() == b@.len(),
            i <= a@.len(),
            forall|j: int| 0 <= j < i ==> a@[j] == b@[j],
        decreases a@.len() - i,
    {
        if a[i] != b[i] {
            return false;
        }
        i += 1;
    }
    assert(a@ =~= b@);
    true
}

/// Whether two strings are the same.
pub fn same_text(a: &str, b: &str) -> (result: bool)
    ensures
        result == (a@ == b@),
{
    let left: Vec<char> = characters(a);
    let right: Vec<char> = characters(b);
    same(left.as_slice(), right.as_slice())
}

/// A copy of a list of characters.
pub fn copied(s: &[char]) -> (result: Vec<char>)
    ensures
        result@ == s@,
{
    let mut result: Vec<char> = Vec::new();
    let mut i: usize = 0;
    while i < s.len()
        invariant
            i <= s@.len(),
            result@ == s@.take(i as int),
        decreases s@.len() - i,
    {
        result.push(s[i]);
        i += 1;
    }
    assert(s@.take(i as int) == s@);
    result
}

/// Every letter of ASCII in lower case.
pub fn lowered(s: &[char]) -> (result: Vec<char>)
    ensures
        result@ == ascii_lowercase(s@),
{
    let mut result: Vec<char> = Vec::new();
    let mut i: usize = 0;
    while i < s.len()
        invariant
            i <= s@.len(),
            result@ == ascii_lowercase(s@.take(i as int)),
        decreases s@.len() - i,
    {
        result.push(lower(s[i]));
        i += 1;
        assert(result@ =~= ascii_lowercase(s@.take(i as int)));
    }
    assert(s@.take(i as int) == s@);
    result
}

// ---------------------------------------------------------------------------
// Searching
// ---------------------------------------------------------------------------

/// The place of the first `c`, or the length where there is none.
pub open spec fn first_index(s: Seq<char>, c: char) -> nat
    decreases s.len(),
{
    if s.len() == 0 || s[0] == c {
        0
    } else {
        1 + first_index(s.skip(1), c)
    }
}

/// The place behind the last `c`, or 0 where there is none.
pub open spec fn behind_last(s: Seq<char>, c: char) -> nat
    decreases s.len(),
{
    if s.len() == 0 {
        0
    } else if s.last() == c {
        s.len()
    } else {
        behind_last(s.drop_last(), c)
    }
}

/// The place of the first `c`, or the length where there is none.
pub fn find(s: &[char], c: char) -> (result: usize)
    ensures
        result == first_index(s@, c),
        result <= s@.len(),
{
    let mut i: usize = 0;
    assert(s@.skip(0) == s@);
    while i < s.len() && s[i] != c
        invariant
            i <= s@.len(),
            first_index(s@, c) == i + first_index(s@.skip(i as int), c),
        decreases s@.len() - i,
    {
        i += 1;
        assert(s@.skip(i - 1).skip(1) == s@.skip(i as int));
    }
    i
}

/// The place behind the last `c`, or 0 where there is none.
pub fn rfind(s: &[char], c: char) -> (result: usize)
    ensures
        result == behind_last(s@, c),
        result <= s@.len(),
{
    let mut i: usize = s.len();
    assert(s@.take(i as int) == s@);
    while i > 0 && s[i - 1] != c
        invariant
            i <= s@.len(),
            behind_last(s@, c) == behind_last(s@.take(i as int), c),
        decreases i,
    {
        i -= 1;
        assert(s@.take(i + 1).drop_last() == s@.take(i as int));
    }
    i
}

/// Whether `s` begins with `prefix`.
pub open spec fn begins(s: Seq<char>, prefix: Seq<char>) -> bool {
    prefix.len() <= s.len() && s.take(prefix.len() as int) == prefix
}

/// Whether `s` ends with `suffix`.
pub open spec fn ends(s: Seq<char>, suffix: Seq<char>) -> bool {
    suffix.len() <= s.len() && s.skip(s.len() - suffix.len()) == suffix
}

/// Whether `part` stands in `s` at `at`.
pub open spec fn occurs_at(s: Seq<char>, part: Seq<char>, at: int) -> bool {
    0 <= at && at + part.len() <= s.len() && s.subrange(at, at + part.len()) == part
}

/// Whether `part` stands anywhere in `s`.
pub open spec fn holds(s: Seq<char>, part: Seq<char>) -> bool {
    exists|at: int| occurs_at(s, part, at)
}

/// Whether `s` begins with `prefix`.
pub fn starts_with(s: &[char], prefix: &[char]) -> (result: bool)
    ensures
        result == begins(s@, prefix@),
{
    if prefix.len() > s.len() {
        return false;
    }
    let head: &[char] = slice_subrange(s, 0, prefix.len());
    same(head, prefix)
}

/// Whether `s` begins with a string.
pub fn starts(s: &[char], prefix: &str) -> (result: bool)
    ensures
        result == begins(s@, prefix@),
{
    let wanted: Vec<char> = characters(prefix);
    starts_with(s, wanted.as_slice())
}

/// Whether `s` ends with `suffix`.
pub fn ends_with(s: &[char], suffix: &[char]) -> (result: bool)
    ensures
        result == ends(s@, suffix@),
{
    if suffix.len() > s.len() {
        return false;
    }
    let tail: &[char] = slice_subrange(s, s.len() - suffix.len(), s.len());
    same(tail, suffix)
}

/// Whether `part` stands anywhere in `s`.
pub fn contains(s: &[char], part: &[char]) -> (result: bool)
    ensures
        result == holds(s@, part@),
{
    if part.len() > s.len() {
        return false;
    }
    let total: usize = s.len();
    let last: usize = total - part.len();
    let mut at: usize = 0;
    while at <= last
        invariant
            total == s@.len(),
            last == total - part@.len(),
            at <= last + 1,
            forall|j: int| 0 <= j < at ==> !occurs_at(s@, part@, j),
        decreases last + 1 - at,
    {
        let piece: &[char] = slice_subrange(s, at, at + part.len());
        if same(piece, part) {
            assert(occurs_at(s@, part@, at as int));
            return true;
        }
        if at == last {
            assert forall|j: int| !occurs_at(s@, part@, j) by {}
            return false;
        }
        at += 1;
    }
    false
}

// ---------------------------------------------------------------------------
// Trimming and splitting
// ---------------------------------------------------------------------------

/// `s` without the white space that it begins with.
pub open spec fn trim_start(s: Seq<char>) -> Seq<char>
    decreases s.len(),
{
    if s.len() > 0 && is_space(s[0]) {
        trim_start(s.skip(1))
    } else {
        s
    }
}

/// `s` without the white space that it ends with.
pub open spec fn trim_end(s: Seq<char>) -> Seq<char>
    decreases s.len(),
{
    if s.len() > 0 && is_space(s.last()) {
        trim_end(s.drop_last())
    } else {
        s
    }
}

/// `s` without the white space around it.
pub open spec fn trimmed(s: Seq<char>) -> Seq<char> {
    trim_end(trim_start(s))
}

/// `s` without the white space around it.
pub fn trim(s: &[char]) -> (result: &[char])
    ensures
        result@ == trimmed(s@),
{
    let mut from: usize = 0;
    assert(s@.skip(0) == s@);
    while from < s.len() && space(s[from])
        invariant
            from <= s@.len(),
            trim_start(s@) == trim_start(s@.skip(from as int)),
        decreases s@.len() - from,
    {
        from += 1;
        assert(s@.skip(from - 1).skip(1) == s@.skip(from as int));
    }
    let ghost head = s@.skip(from as int);
    assert(trim_start(s@) == head);
    let mut to: usize = s.len();
    assert(s@.subrange(from as int, to as int) == head);
    while to > from && space(s[to - 1])
        invariant
            from <= to <= s@.len(),
            trim_end(head) == trim_end(s@.subrange(from as int, to as int)),
        decreases to,
    {
        to -= 1;
        assert(s@.subrange(from as int, to + 1).drop_last() == s@.subrange(from as int, to as int));
    }
    slice_subrange(s, from, to)
}

/// The length of the run of characters other than white space that `s` begins with.
pub open spec fn word_length(s: Seq<char>) -> nat
    decreases s.len(),
{
    if s.len() == 0 || is_space(s[0]) {
        0
    } else {
        1 + word_length(s.skip(1))
    }
}

/// The words of `s`: its longest runs of characters other than white space.
pub open spec fn words(s: Seq<char>) -> Seq<Seq<char>>
    decreases s.len(),
{
    if s.len() == 0 {
        Seq::empty()
    } else if is_space(s[0]) {
        words(s.skip(1))
    } else if word_length(s) <= s.len() {
        seq![s.take(word_length(s) as int)] + words(s.skip(word_length(s) as int))
    } else {
        Seq::empty()
    }
}

pub proof fn lemma_word_length(s: Seq<char>)
    ensures
        word_length(s) <= s.len(),
    decreases s.len(),
{
    if s.len() != 0 && !is_space(s[0]) {
        lemma_word_length(s.skip(1));
    }
}

/// The words of `s`.
pub fn split_whitespace(s: &[char]) -> (result: Vec<Vec<char>>)
    ensures
        views(result@) == words(s@),
{
    let mut result: Vec<Vec<char>> = Vec::new();
    let mut i: usize = 0;
    assert(s@.skip(0) == s@);
    assert(views(result@) + words(s@) =~= words(s@));
    while i < s.len()
        invariant
            i <= s@.len(),
            words(s@) == views(result@) + words(s@.skip(i as int)),
        decreases s@.len() - i,
    {
        let ghost rest = s@.skip(i as int);
        if space(s[i]) {
            i += 1;
            assert(rest.skip(1) == s@.skip(i as int));
        } else {
            let start: usize = i;
            proof {
                lemma_word_length(rest);
            }
            assert(rest.skip(0) == rest);
            while i < s.len() && !space(s[i])
                invariant
                    start <= i <= s@.len(),
                    rest == s@.skip(start as int),
                    word_length(rest) == (i - start) + word_length(s@.skip(i as int)),
                decreases s@.len() - i,
            {
                i += 1;
                assert(s@.skip(i - 1).skip(1) == s@.skip(i as int));
            }
            assert(word_length(rest) == i - start);
            assert(rest.skip(i - start) == s@.skip(i as int));
            assert(rest.take(i - start) == s@.subrange(start as int, i as int));
            let ghost before = result@;
            let word: Vec<char> = copied(slice_subrange(s, start, i));
            proof {
                lemma_views_push(before, word);
            }
            result.push(word);
            assert(views(before) + (seq![word@] + words(s@.skip(i as int)))
                =~= views(result@) + words(s@.skip(i as int)));
        }
    }
    assert(s@.skip(i as int) =~= Seq::<char>::empty());
    assert(views(result@) + Seq::<Seq<char>>::empty() =~= views(result@));
    result
}

/// A line without the carriage return that stands before its line feed.
pub open spec fn without_return(s: Seq<char>) -> Seq<char> {
    if s.len() > 0 && s.last() == '\r' {
        s.drop_last()
    } else {
        s
    }
}

/// The lines of `s`: each ends at a line feed, with or without a carriage
/// return before it; the last may lack its line feed.
pub open spec fn lines(s: Seq<char>) -> Seq<Seq<char>>
    decreases s.len(),
{
    let end = first_index(s, '\n');
    if s.len() == 0 {
        Seq::empty()
    } else if end >= s.len() {
        seq![s]
    } else {
        seq![without_return(s.take(end as int))] + lines(s.skip(end as int + 1))
    }
}

/// The lines of `s`.
pub fn split_lines(s: &[char]) -> (result: Vec<Vec<char>>)
    ensures
        views(result@) == lines(s@),
{
    let mut result: Vec<Vec<char>> = Vec::new();
    let mut i: usize = 0;
    assert(s@.skip(0) == s@);
    assert(views(result@) + lines(s@) =~= lines(s@));
    while i < s.len()
        invariant
            i <= s@.len(),
            lines(s@) == views(result@) + lines(s@.skip(i as int)),
        decreases s@.len() - i,
    {
        let ghost rest = s@.skip(i as int);
        let ghost before = result@;
        let tail: &[char] = slice_subrange(s, i, s.len());
        assert(tail@ == rest);
        let end: usize = find(tail, '\n');
        if end >= tail.len() {
            let line: Vec<char> = copied(tail);
            proof {
                lemma_views_push(before, line);
            }
            result.push(line);
            i = s.len();
            assert(s@.skip(i as int) =~= Seq::<char>::empty());
            assert(views(before) + seq![rest] =~= views(result@) + lines(s@.skip(i as int)));
        } else {
            let line: Vec<char> = if end > 0 && tail[end - 1] == '\r' {
                copied(slice_subrange(tail, 0, end - 1))
            } else {
                copied(slice_subrange(tail, 0, end))
            };
            assert(line@ =~= without_return(rest.take(end as int)));
            proof {
                lemma_views_push(before, line);
            }
            result.push(line);
            i = i + end + 1;
            assert(rest.skip(end + 1) == s@.skip(i as int));
            assert(views(before) + (seq![line@] + lines(s@.skip(i as int)))
                =~= views(result@) + lines(s@.skip(i as int)));
        }
    }
    assert(s@.skip(i as int) =~= Seq::<char>::empty());
    assert(views(result@) + Seq::<Seq<char>>::empty() =~= views(result@));
    result
}

/// The pieces of `s` between the separators: one more than there are separators.
pub open spec fn pieces(s: Seq<char>, separator: char) -> Seq<Seq<char>>
    decreases s.len(),
{
    let end = first_index(s, separator);
    if end >= s.len() {
        seq![s]
    } else {
        seq![s.take(end as int)] + pieces(s.skip(end as int + 1), separator)
    }
}

/// The pieces of `s` between the separators.
pub fn split(s: &[char], separator: char) -> (result: Vec<Vec<char>>)
    ensures
        views(result@) == pieces(s@, separator),
{
    let mut result: Vec<Vec<char>> = Vec::new();
    let mut i: usize = 0;
    assert(s@.skip(0) == s@);
    assert(views(result@) + pieces(s@, separator) =~= pieces(s@, separator));
    loop
        invariant_except_break
            i <= s@.len(),
            pieces(s@, separator) == views(result@) + pieces(s@.skip(i as int), separator),
        ensures
            views(result@) == pieces(s@, separator),
        decreases s@.len() - i,
    {
        let ghost rest = s@.skip(i as int);
        let ghost before = result@;
        let tail: &[char] = slice_subrange(s, i, s.len());
        assert(tail@ == rest);
        let end: usize = find(tail, separator);
        let piece: Vec<char> = copied(slice_subrange(tail, 0, end));
        proof {
            lemma_views_push(before, piece);
        }
        result.push(piece);
        if end >= tail.len() {
            assert(piece@ == rest);
            assert(views(before) + seq![rest] =~= views(result@));
            break;
        }
        i = i + end + 1;
        assert(rest.skip(end + 1) == s@.skip(i as int));
        assert(views(before) + (seq![piece@] + pieces(s@.skip(i as int), separator))
            =~= views(result@) + pieces(s@.skip(i as int), separator));
    }
    result
}

/// The lines of a text.
pub fn rows_of(text: &str) -> (result: Vec<Vec<char>>)
    ensures
        views(result@) == lines(text@),
{
    let all: Vec<char> = characters(text);
    split_lines(all.as_slice())
}

/// What stands before and behind the first separator.
pub open spec fn once(s: Seq<char>, separator: char) -> Option<(Seq<char>, Seq<char>)> {
    let at = first_index(s, separator) as int;
    if at >= s.len() {
        None
    } else {
        Some((s.take(at), s.skip(at + 1)))
    }
}

/// What stands before and behind the first separator.
pub fn split_once(s: &[char], separator: char) -> (result: Option<(&[char], &[char])>)
    ensures
        result is None <==> once(s@, separator) is None,
        result matches Some((left, right)) ==> once(s@, separator) == Some((left@, right@)),
{
    let at: usize = find(s, separator);
    if at >= s.len() {
        None
    } else {
        let left: &[char] = slice_subrange(s, 0, at);
        let right: &[char] = slice_subrange(s, at + 1, s.len());
        assert(left@ =~= s@.take(at as int));
        assert(right@ =~= s@.skip(at + 1));
        Some((left, right))
    }
}

/// What a text that could be read or not says, without white space around it;
/// nothing where there is nothing else in it.
pub open spec fn said(text: Option<Seq<char>>) -> Option<Seq<char>> {
    match text {
        Some(all) => if trimmed(all).len() == 0 {
            None
        } else {
            Some(trimmed(all))
        },
        None => None,
    }
}

/// What a text that could be read or not says.
pub fn read_trimmed(text: &Option<String>) -> (result: Option<Vec<char>>)
    ensures
        optional_view(result) == said(optional_view(*text)),
{
    match text {
        Some(all) => {
            let whole: Vec<char> = characters(all.as_str());
            let inner: &[char] = trim(whole.as_slice());
            if inner.len() == 0 {
                None
            } else {
                Some(copied(inner))
            }
        },
        None => None,
    }
}

// ---------------------------------------------------------------------------
// Decimal integers
// ---------------------------------------------------------------------------

/// Whether `s` holds digits alone, and at least one.
pub open spec fn all_digits(s: Seq<char>) -> bool {
    s.len() > 0 && forall|i: int| 0 <= i < s.len() ==> is_digit(#[trigger] s[i])
}

/// What a row of digits counts.
pub open spec fn digits_value(s: Seq<char>) -> nat
    decreases s.len(),
{
    if s.len() == 0 {
        0
    } else {
        digits_value(s.drop_last()) * 10 + digit_value(s.last())
    }
}

/// The non-negative integer that `s` writes: digits, with or without a plus
/// sign before them, that count no more than `limit`.
pub open spec fn unsigned(s: Seq<char>, limit: nat) -> Option<nat> {
    let body = if s.len() > 0 && s[0] == '+' {
        s.skip(1)
    } else {
        s
    };
    if all_digits(body) && digits_value(body) <= limit {
        Some(digits_value(body))
    } else {
        None
    }
}

/// The 64-bit integer that `s` writes: digits, with or without a sign before them.
pub open spec fn signed(s: Seq<char>) -> Option<int> {
    if s.len() > 0 && s[0] == '-' {
        let body = s.skip(1);
        if all_digits(body) && digits_value(body) <= 0x8000_0000_0000_0000 {
            Some(-(digits_value(body) as int))
        } else {
            None
        }
    } else {
        match unsigned(s, 0x7fff_ffff_ffff_ffff) {
            Some(value) => Some(value as int),
            None => None,
        }
    }
}

/// What a row of digits counts cannot shrink when digits are put behind it.
pub proof fn lemma_digits_value_grows(s: Seq<char>, n: int)
    requires
        0 <= n <= s.len(),
    ensures
        digits_value(s.take(n)) <= digits_value(s),
    decreases s.len() - n,
{
    if n < s.len() {
        lemma_digits_value_grows(s, n + 1);
        assert(s.take(n + 1).drop_last() == s.take(n));
    } else {
        assert(s.take(n) == s);
    }
}

/// Reads a row of digits that counts no more than `limit`.
fn digits_up_to(s: &[char], limit: u64) -> (result: Option<u64>)
    ensures
        result matches Some(value) ==> all_digits(s@) && digits_value(s@) == value && value
            <= limit,
        result is None ==> !(all_digits(s@) && digits_value(s@) <= limit),
{
    if s.len() == 0 {
        return None;
    }
    let mut value: u64 = 0;
    let mut i: usize = 0;
    while i < s.len()
        invariant
            i <= s@.len(),
            s@.len() > 0,
            forall|j: int| 0 <= j < i ==> is_digit(#[trigger] s@[j]),
            value == digits_value(s@.take(i as int)),
            value <= limit,
        decreases s@.len() - i,
    {
        let c: char = s[i];
        match c {
            '0'..='9' => {},
            _ => {
                assert(!is_digit(s@[i as int]));
                return None;
            },
        }
        let digit: u64 = (c as u8 - 48) as u64;
        assert(digit == digit_value(c));
        assert(s@.take(i + 1).drop_last() == s@.take(i as int));
        assert(digits_value(s@.take(i + 1)) == value * 10 + digit);
        let next: u128 = value as u128 * 10 + digit as u128;
        if next > limit as u128 {
            proof {
                lemma_digits_value_grows(s@, i + 1);
            }
            return None;
        }
        value = next as u64;
        i += 1;
    }
    assert(s@.take(i as int) == s@);
    Some(value)
}

/// Reads a non-negative integer that is no larger than `limit`.
pub fn parse_up_to(s: &[char], limit: u64) -> (result: Option<u64>)
    ensures
        result matches Some(value) ==> unsigned(s@, limit as nat) == Some(value as nat),
        result is None ==> unsigned(s@, limit as nat) is None,
{
    if s.len() > 0 && s[0] == '+' {
        digits_up_to(slice_subrange(s, 1, s.len()), limit)
    } else {
        digits_up_to(s, limit)
    }
}

/// Reads a 64-bit non-negative integer.
pub fn parse_u64(s: &[char]) -> (result: Option<u64>)
    ensures
        result matches Some(value) ==> unsigned(s@, u64::MAX as nat) == Some(value as nat),
        result is None ==> unsigned(s@, u64::MAX as nat) is None,
{
    parse_up_to(s, u64::MAX)
}

/// Reads a 32-bit non-negative integer.
pub fn parse_u32(s: &[char]) -> (result: Option<u32>)
    ensures
        result matches Some(value) ==> unsigned(s@, u32::MAX as nat) == Some(value as nat),
        result is None ==> unsigned(s@, u32::MAX as nat) is None,
{
    match parse_up_to(s, u32::MAX as u64) {
        Some(value) => Some(value as u32),
        None => None,
    }
}

/// Reads a non-negative integer of the machine's size.
pub fn parse_usize(s: &[char]) -> (result: Option<usize>)
    ensures
        result matches Some(value) ==> unsigned(s@, usize::MAX as nat) == Some(value as nat),
        result is None ==> unsigned(s@, usize::MAX as nat) is None,
{
    match parse_up_to(s, usize::MAX as u64) {
        Some(value) => Some(value as usize),
        None => None,
    }
}

/// Reads a 64-bit integer.
pub fn parse_i64(s: &[char]) -> (result: Option<i64>)
    ensures
        result matches Some(value) ==> signed(s@) == Some(value as int),
        result is None ==> signed(s@) is None,
{
    if s.len() > 0 && s[0] == '-' {
        match digits_up_to(slice_subrange(s, 1, s.len()), 0x8000_0000_0000_0000) {
            Some(value) => if value == 0x8000_0000_0000_0000 {
                Some(i64::MIN)
            } else {
                Some(-(value as i64))
            },
            None => None,
        }
    } else {
        match parse_up_to(s, 0x7fff_ffff_ffff_ffff) {
            Some(value) => Some(value as i64),
            None => None,
        }
    }
}

/// What a hexadecimal digit counts.
pub open spec fn hex_digit(c: char) -> Option<nat> {
    if '0' <= c <= '9' {
        Some((c as int - '0' as int) as nat)
    } else if 'a' <= c <= 'f' {
        Some((c as int - 'a' as int + 10) as nat)
    } else if 'A' <= c <= 'F' {
        Some((c as int - 'A' as int + 10) as nat)
    } else {
        None
    }
}

/// What a row of hexadecimal digits counts.
pub open spec fn hex_value(s: Seq<char>) -> nat
    decreases s.len(),
{
    if s.len() == 0 {
        0
    } else {
        hex_value(s.drop_last()) * 16 + match hex_digit(s.last()) {
            Some(digit) => digit,
            None => 0,
        }
    }
}

/// Whether `s` holds hexadecimal digits alone, and at least one.
pub open spec fn all_hex_digits(s: Seq<char>) -> bool {
    s.len() > 0 && forall|i: int| 0 <= i < s.len() ==> hex_digit(#[trigger] s[i]) is Some
}

/// The 32-bit integer that hexadecimal digits write, with or without a plus sign
/// before them.
pub open spec fn hexadecimal(s: Seq<char>) -> Option<nat> {
    let body = if s.len() > 0 && s[0] == '+' {
        s.skip(1)
    } else {
        s
    };
    if all_hex_digits(body) && hex_value(body) <= u32::MAX {
        Some(hex_value(body))
    } else {
        None
    }
}

proof fn lemma_hex_value_grows(s: Seq<char>, n: int)
    requires
        0 <= n <= s.len(),
    ensures
        hex_value(s.take(n)) <= hex_value(s),
    decreases s.len() - n,
{
    if n < s.len() {
        lemma_hex_value_grows(s, n + 1);
        assert(s.take(n + 1).drop_last() == s.take(n));
    } else {
        assert(s.take(n) == s);
    }
}

/// Reads a 32-bit integer in hexadecimal digits.
pub fn parse_hexadecimal(s: &[char]) -> (result: Option<u32>)
    ensures
        result matches Some(value) ==> hexadecimal(s@) == Some(value as nat),
        result is None ==> hexadecimal(s@) is None,
{
    let body: &[char] = if s.len() > 0 && s[0] == '+' {
        slice_subrange(s, 1, s.len())
    } else {
        s
    };
    if body.len() == 0 {
        return None;
    }
    let mut value: u64 = 0;
    let mut i: usize = 0;
    while i < body.len()
        invariant
            i <= body@.len(),
            body@ == if s@.len() > 0 && s@[0] == '+' {
                s@.skip(1)
            } else {
                s@
            },
            forall|j: int| 0 <= j < i ==> hex_digit(#[trigger] body@[j]) is Some,
            value == hex_value(body@.take(i as int)),
            value <= u32::MAX,
        decreases body@.len() - i,
    {
        let c: char = body[i];
        let digit: u64 = match c {
            '0'..='9' => (c as u8 - 48) as u64,
            'a'..='f' => (c as u8 - 87) as u64,
            'A'..='F' => (c as u8 - 55) as u64,
            _ => {
                assert(hex_digit(body@[i as int]) is None);
                return None;
            },
        };
        assert(hex_digit(c) == Some(digit as nat));
        assert(body@.take(i + 1).drop_last() == body@.take(i as int));
        value = value * 16 + digit;
        i += 1;
        if value > u32::MAX as u64 {
            proof {
                lemma_hex_value_grows(body@, i as int);
            }
            return None;
        }
    }
    assert(body@.take(i as int) == body@);
    Some(value as u32)
}

/// How `value` is written in decimal digits.
pub open spec fn decimal(value: nat) -> Seq<char>
    decreases value,
{
    if value < 10 {
        seq![digit_char(value)]
    } else {
        decimal(value / 10).push(digit_char(value % 10))
    }
}

/// How an integer is written in decimal digits, with a minus sign where it is negative.
pub open spec fn signed_decimal(value: int) -> Seq<char> {
    if value < 0 {
        seq!['-'] + decimal((-value) as nat)
    } else {
        decimal(value as nat)
    }
}

/// A digit for a number below ten.
fn digit(value: u128) -> (result: char)
    requires
        value < 10,
    ensures
        result == digit_char(value as nat),
{
    (48 + value as u8) as char
}

/// `value` in decimal digits.
pub fn decimal_characters(value: u128) -> (result: Vec<char>)
    ensures
        result@ == decimal(value as nat),
    decreases value,
{
    if value < 10 {
        let mut result: Vec<char> = Vec::new();
        result.push(digit(value));
        assert(result@ =~= decimal(value as nat));
        result
    } else {
        let mut result: Vec<char> = decimal_characters(value / 10);
        result.push(digit(value % 10));
        result
    }
}

/// How `value` is written with zeros before it, so that it has `width` digits
/// at least.
pub open spec fn padded_decimal(value: nat, width: nat) -> Seq<char> {
    let digits = decimal(value);
    if digits.len() < width {
        Seq::new((width - digits.len()) as nat, |i: int| '0') + digits
    } else {
        digits
    }
}

/// `value` in at least `width` decimal digits.
pub fn padded_characters(value: u128, width: usize) -> (result: Vec<char>)
    ensures
        result@ == padded_decimal(value as nat, width as nat),
{
    let digits: Vec<char> = decimal_characters(value);
    let mut result: Vec<char> = Vec::new();
    let mut missing: usize = if digits.len() < width {
        width - digits.len()
    } else {
        0
    };
    let ghost zeros = missing as nat;
    while missing > 0
        invariant
            missing <= zeros,
            result@ == Seq::new((zeros - missing) as nat, |i: int| '0'),
        decreases missing,
    {
        result.push('0');
        missing -= 1;
        assert(result@ =~= Seq::new((zeros - missing) as nat, |i: int| '0'));
    }
    let mut i: usize = 0;
    while i < digits.len()
        invariant
            i <= digits@.len(),
            result@ == Seq::new(zeros, |i: int| '0') + digits@.take(i as int),
        decreases digits@.len() - i,
    {
        result.push(digits[i]);
        i += 1;
        assert(digits@.take(i as int) =~= digits@.take(i - 1).push(digits@[i - 1]));
        assert(result@ =~= Seq::new(zeros, |i: int| '0') + digits@.take(i as int));
    }
    assert(digits@.take(i as int) =~= digits@);
    assert(result@ =~= padded_decimal(value as nat, width as nat));
    result
}

/// Puts `value`, in at least `width` decimal digits, behind a string.
pub fn push_padded(out: &mut String, value: u64, width: usize)
    ensures
        final(out)@ == old(out)@ + padded_decimal(value as nat, width as nat),
{
    let shown: Vec<char> = padded_characters(value as u128, width);
    push_characters(out, shown.as_slice());
}

/// Puts `value`, in decimal digits, behind a string.
pub fn push_decimal(out: &mut String, value: u64)
    ensures
        final(out)@ == old(out)@ + decimal(value as nat),
{
    let shown: Vec<char> = decimal_characters(value as u128);
    push_characters(out, shown.as_slice());
}

/// Puts an integer, in decimal digits, behind a string.
pub fn push_signed(out: &mut String, value: i64)
    ensures
        final(out)@ == old(out)@ + signed_decimal(value as int),
{
    let size: u128 = if value < 0 {
        out.push('-');
        (-(value as i128)) as u128
    } else {
        value as u128
    };
    let shown: Vec<char> = decimal_characters(size);
    push_characters(out, shown.as_slice());
    assert(out@ =~= old(out)@ + signed_decimal(value as int));
}

// ---------------------------------------------------------------------------
// Joining
// ---------------------------------------------------------------------------

/// Texts with a separator between them.
pub open spec fn joined(texts: Seq<Seq<char>>, separator: Seq<char>) -> Seq<char>
    decreases texts.len(),
{
    if texts.len() == 0 {
        Seq::empty()
    } else if texts.len() == 1 {
        texts[0]
    } else {
        joined(texts.drop_last(), separator) + separator + texts.last()
    }
}

/// Texts with a separator between them.
pub fn join(texts: &Vec<String>, separator: &str) -> (result: String)
    ensures
        result@ == joined(views(texts@), separator@),
{
    let ghost all = views(texts@);
    if texts.len() == 0 {
        return String::new();
    }
    let mut result: String = texts[0].clone();
    let mut i: usize = 1;
    assert(all.take(1)[0] == texts@[0]@);
    while i < texts.len()
        invariant
            1 <= i <= texts@.len(),
            all == views(texts@),
            result@ == joined(all.take(i as int), separator@),
        decreases texts@.len() - i,
    {
        assert(all[i as int] == texts@[i as int]@);
        assert(all.take(i + 1).drop_last() =~= all.take(i as int));
        result.append(separator);
        result.append(texts[i].as_str());
        i += 1;
    }
    assert(all.take(i as int) =~= all);
    result
}

/// So many hexadecimal digits count less than the power of two behind them.
pub proof fn lemma_hex_value_bound(s: Seq<char>)
    requires
        s.len() <= 8,
    ensures
        s.len() == 0 ==> hex_value(s) == 0,
        s.len() <= 1 ==> hex_value(s) < 0x10,
        s.len() <= 2 ==> hex_value(s) < 0x100,
        s.len() <= 3 ==> hex_value(s) < 0x1000,
        s.len() <= 4 ==> hex_value(s) < 0x1_0000,
        s.len() <= 5 ==> hex_value(s) < 0x10_0000,
        s.len() <= 6 ==> hex_value(s) < 0x100_0000,
        s.len() <= 7 ==> hex_value(s) < 0x1000_0000,
        hex_value(s) < 0x1_0000_0000,
    decreases s.len(),
{
    if s.len() > 0 {
        lemma_hex_value_bound(s.drop_last());
    }
}

} // verus!
