//! The processes of a system, from what procfs says of them. A CPU share of 100
//! percent is one logical CPU.

use crate::accuracy::{
    differ_by, is_close, is_load, is_percentage, lemma_difference_is_close, lemma_load,
    lemma_percentage, lemma_quotient_of_integers, PRECISION,
};
use crate::arithmetic::{
    lemma_difference_not_positive, lemma_integers, lemma_number_rounds_to_itself,
    lemma_rounded_sum_grows, NO_NUMBER,
};
use crate::counters::{nonnegative, parse_nonnegative};
use crate::double::{lemma_order_is_numeric, units, Double, FINEST, HIDDEN};
use crate::magnitudes::{
    lemma_integer_between, lemma_no_seconds, lemma_product_at_most, lemma_quotient_at_most,
    lemma_seconds,
};
use crate::readings::warn;
use crate::rounding::lemma_powers;
use crate::text::{
    all_digits, begins, behind_last, characters, control, decimal, digits_value, find, first_index,
    is_control, is_digit, lemma_views_push, lines, optional_view, parse_i64, parse_u32, parse_u64,
    pieces, push_decimal, rfind, rows_of, signed, split, split_whitespace, starts_with, string_of,
    trim, trimmed, unsigned, views, words,
};
use crate::writing::{
    is_solid, lemma_behind_last, lemma_decimal_counts, lemma_decimal_reads_back, lemma_first_index,
    lemma_one_word, lemma_pieces_are_parted, lemma_words_are_parted,
};
use std::collections::HashMap;
use vstd::arithmetic::power2::{lemma2_to64, pow2};
use vstd::prelude::*;
use vstd::slice::slice_subrange;
use vstd::utf8::{decode_utf8, valid_utf8};

verus! {

/// As much of a file of a process as is looked at.
pub const MAX_PROC_FILE_BYTES: usize = 65536;

// ---------------------------------------------------------------------------
// Outside functions
// ---------------------------------------------------------------------------

/// The text of bytes: what `String::from_utf8_lossy` of std makes of them.
pub uninterp spec fn lossy_text(bytes: Seq<u8>) -> Seq<char>;

/// `String::from_utf8_lossy` of std. The text is the one that [`lossy_text`]
/// names for the bytes, and bytes that are UTF-8 stand for the text that they
/// encode; where characters are put in place of other bytes is left unsaid.
#[verifier::external_body]
fn decoded(bytes: &[u8]) -> (result: String)
    ensures
        result@ == lossy_text(bytes@),
        valid_utf8(bytes@) ==> result@ == decode_utf8(bytes@),
{
    String::from_utf8_lossy(bytes).into_owned()
}

/// Whether bytes, where they are UTF-8, stand for the text that they encode.
pub open spec fn reads_utf8(bytes: Seq<u8>) -> bool {
    valid_utf8(bytes) ==> lossy_text(bytes) == decode_utf8(bytes)
}

/// The same of a file that was read or not.
pub open spec fn file_reads_utf8(file: Option<Seq<u8>>) -> bool {
    match file {
        Some(bytes) => reads_utf8(bytes),
        None => true,
    }
}

/// `libc::ESRCH`, the error for a process that is not there. On Linux, the
/// system with the files that are read here, it is 3.
#[verifier::external_body]
fn no_such_process() -> (result: i32)
    ensures
        result == 3,
{
    libc::ESRCH
}

// ---------------------------------------------------------------------------
// Text for display
// ---------------------------------------------------------------------------

/// A character as it is shown: one that changes the direction of text becomes
/// U+FFFD, one that breaks the line or controls the display becomes a space.
pub open spec fn harmless(c: char) -> char {
    if ('\u{202a}' <= c <= '\u{202e}') || ('\u{2066}' <= c <= '\u{2069}') {
        '\u{fffd}'
    } else if c == '\u{2028}' || c == '\u{2029}' || is_control(c) {
        ' '
    } else {
        c
    }
}

/// A text as it is shown.
pub open spec fn sanitized(s: Seq<char>) -> Seq<char> {
    s.map_values(|c: char| harmless(c))
}

/// No character of a text that is shown controls the display, breaks the line or
/// changes the direction of text.
pub proof fn lemma_sanitized_is_harmless(s: Seq<char>, i: int)
    requires
        0 <= i < s.len(),
    ensures
        !is_control(sanitized(s)[i]),
        sanitized(s)[i] != '\u{2028}',
        sanitized(s)[i] != '\u{2029}',
        !('\u{202a}' <= sanitized(s)[i] <= '\u{202e}'),
        !('\u{2066}' <= sanitized(s)[i] <= '\u{2069}'),
{
}

/// Showing a text that is already fit to be shown changes nothing.
pub proof fn lemma_sanitized_twice(s: Seq<char>)
    ensures
        sanitized(sanitized(s)) == sanitized(s),
{
    assert(sanitized(sanitized(s)) =~= sanitized(s));
}

fn shown_character(c: char) -> (result: char)
    ensures
        result == harmless(c),
{
    match c {
        '\u{202a}'..='\u{202e}' => '\u{fffd}',
        '\u{2066}'..='\u{2069}' => '\u{fffd}',
        '\u{2028}' => ' ',
        '\u{2029}' => ' ',
        _ => if control(c) {
            ' '
        } else {
            c
        },
    }
}

fn sanitize_characters(text: &[char]) -> (result: String)
    ensures
        result@ == sanitized(text@),
{
    let mut result: String = String::new();
    let mut i: usize = 0;
    assert(result@ =~= sanitized(text@.take(0)));
    while i < text.len()
        invariant
            i <= text@.len(),
            result@ == sanitized(text@.take(i as int)),
        decreases text@.len() - i,
    {
        result.push(shown_character(text[i]));
        i += 1;
        assert(result@ =~= sanitized(text@.take(i as int)));
    }
    assert(text@.take(i as int) =~= text@);
    result
}

/// A text as it is shown.
pub fn sanitize(text: &str) -> (result: String)
    ensures
        result@ == sanitized(text@),
{
    let all: Vec<char> = characters(text);
    sanitize_characters(all.as_slice())
}

// ---------------------------------------------------------------------------
// Command lines
// ---------------------------------------------------------------------------

/// The place of the first zero among bytes, or their number where there is none.
pub open spec fn first_zero(bytes: Seq<u8>) -> nat
    decreases bytes.len(),
{
    if bytes.len() == 0 || bytes[0] == 0 {
        0
    } else {
        1 + first_zero(bytes.skip(1))
    }
}

/// The arguments that zeros separate.
pub open spec fn arguments(bytes: Seq<u8>) -> Seq<Seq<u8>>
    decreases bytes.len(),
{
    let end = first_zero(bytes);
    if end >= bytes.len() {
        seq![bytes]
    } else {
        seq![bytes.take(end as int)] + arguments(bytes.skip(end as int + 1))
    }
}

/// Arguments without the empty ones at their end.
pub open spec fn without_empty_end(args: Seq<Seq<u8>>) -> Seq<Seq<u8>>
    decreases args.len(),
{
    if args.len() > 0 && args.last().len() == 0 {
        without_empty_end(args.drop_last())
    } else {
        args
    }
}

/// An argument as it is shown.
pub open spec fn shown_argument(arg: Seq<u8>) -> Seq<char> {
    if arg.len() == 0 {
        "\"\""@
    } else {
        sanitized(lossy_text(arg))
    }
}

/// Arguments with a space between any two.
pub open spec fn spelled_out(args: Seq<Seq<u8>>) -> Seq<char>
    decreases args.len(),
{
    if args.len() == 0 {
        Seq::empty()
    } else if args.len() == 1 {
        shown_argument(args[0])
    } else {
        spelled_out(args.drop_last()) + " "@ + shown_argument(args.last())
    }
}

pub open spec fn has_nonzero(bytes: Seq<u8>) -> bool {
    exists|i: int| 0 <= i < bytes.len() && #[trigger] bytes[i] != 0
}

/// A command line as it is shown: the name of the process in brackets where
/// there is none.
pub open spec fn command_of(bytes: Option<Seq<u8>>, name: Seq<char>) -> Seq<char> {
    match bytes {
        Some(all) => if !has_nonzero(all) {
            "["@ + name + "]"@
        } else if all.len() > MAX_PROC_FILE_BYTES {
            spelled_out(shown_arguments(all)) + " …"@
        } else {
            spelled_out(shown_arguments(all))
        },
        None => "["@ + name + "]"@,
    }
}

/// The arguments that are shown of a command line.
pub open spec fn shown_arguments(bytes: Seq<u8>) -> Seq<Seq<u8>> {
    if bytes.len() > MAX_PROC_FILE_BYTES {
        without_empty_end(arguments(bytes.take(MAX_PROC_FILE_BYTES as int)))
    } else {
        without_empty_end(arguments(bytes))
    }
}

/// Whether the arguments that are shown, where they are UTF-8, stand for the text that
/// they encode.
pub open spec fn command_reads_utf8(bytes: Option<Seq<u8>>) -> bool {
    match bytes {
        Some(all) => has_nonzero(all) ==> forall|i: int|
            0 <= i < shown_arguments(all).len() && (#[trigger] shown_arguments(all)[i]).len() > 0
                ==> reads_utf8(shown_arguments(all)[i]),
        None => true,
    }
}

fn any_nonzero(bytes: &[u8]) -> (result: bool)
    ensures
        result == has_nonzero(bytes@),
{
    let mut i: usize = 0;
    while i < bytes.len()
        invariant
            i <= bytes@.len(),
            forall|k: int| 0 <= k < i ==> #[trigger] bytes@[k] == 0,
        decreases bytes@.len() - i,
    {
        if bytes[i] != 0 {
            return true;
        }
        i += 1;
    }
    false
}

fn split_arguments(bytes: &[u8]) -> (result: Vec<Vec<u8>>)
    ensures
        views(result@) == arguments(bytes@),
{
    let mut result: Vec<Vec<u8>> = Vec::new();
    let mut here: Vec<u8> = Vec::new();
    let mut start: usize = 0;
    let mut i: usize = 0;
    assert(bytes@.skip(0) =~= bytes@);
    assert(views(result@) + arguments(bytes@) =~= arguments(bytes@));
    assert(here@ =~= bytes@.subrange(0, 0));
    while i < bytes.len()
        invariant
            start <= i <= bytes@.len(),
            here@ == bytes@.subrange(start as int, i as int),
            forall|k: int| start <= k < i ==> #[trigger] bytes@[k] != 0,
            arguments(bytes@) == views(result@) + arguments(bytes@.skip(start as int)),
        decreases bytes@.len() - i,
    {
        if bytes[i] == 0 {
            let ghost rest = bytes@.skip(start as int);
            let ghost before = result@;
            proof {
                lemma_first_zero(rest, i - start);
                assert(rest.take(i - start) =~= here@);
                assert(rest.skip(i - start + 1) =~= bytes@.skip(i + 1));
                lemma_views_push(before, here);
            }
            let ghost arg = here@;
            result.push(here);
            here = Vec::new();
            i += 1;
            start = i;
            assert(here@ =~= bytes@.subrange(start as int, i as int));
            assert(views(before) + (seq![arg] + arguments(bytes@.skip(start as int)))
                =~= views(result@) + arguments(bytes@.skip(start as int)));
        } else {
            here.push(bytes[i]);
            i += 1;
            assert(here@ =~= bytes@.subrange(start as int, i as int));
        }
    }
    proof {
        let rest = bytes@.skip(start as int);
        lemma_no_zero(rest);
        assert(here@ =~= rest);
        lemma_views_push(result@, here);
        assert(views(result@) + seq![rest] =~= views(result@).push(rest));
    }
    result.push(here);
    result
}

proof fn lemma_first_zero(bytes: Seq<u8>, n: int)
    requires
        0 <= n < bytes.len(),
        bytes[n] == 0,
        forall|k: int| 0 <= k < n ==> #[trigger] bytes[k] != 0,
    ensures
        first_zero(bytes) == n,
    decreases n,
{
    if n > 0 {
        assert(bytes[0] != 0);
        lemma_first_zero(bytes.skip(1), n - 1);
    }
}

proof fn lemma_no_zero(bytes: Seq<u8>)
    requires
        forall|k: int| 0 <= k < bytes.len() ==> #[trigger] bytes[k] != 0,
    ensures
        first_zero(bytes) == bytes.len(),
    decreases bytes.len(),
{
    if bytes.len() > 0 {
        assert(bytes[0] != 0);
        lemma_no_zero(bytes.skip(1));
    }
}

/// The text of bytes as it is shown.
fn decoded_argument(arg: &[u8]) -> (result: String)
    ensures
        result@ == shown_argument(arg@),
        arg@.len() > 0 ==> reads_utf8(arg@),
{
    if arg.len() == 0 {
        "\"\"".to_owned()
    } else {
        let text: String = decoded(arg);
        sanitize(text.as_str())
    }
}

/// A command line as it is shown.
pub fn format_command(bytes: Option<&[u8]>, name: &str) -> (result: String)
    ensures
        result@ == command_of(
            match bytes {
                Some(all) => Some(all@),
                None => None,
            },
            name@,
        ),
        command_reads_utf8(
            match bytes {
                Some(all) => Some(all@),
                None => None,
            },
        ),
{
    let all: &[u8] = match bytes {
        Some(all) => all,
        None => {
            return in_brackets(name);
        },
    };
    if !any_nonzero(all) {
        return in_brackets(name);
    }
    let truncated: bool = all.len() > MAX_PROC_FILE_BYTES;
    let looked_at: &[u8] = if truncated {
        slice_subrange(all, 0, MAX_PROC_FILE_BYTES)
    } else {
        all
    };
    assert(truncated ==> looked_at@ =~= all@.take(MAX_PROC_FILE_BYTES as int));
    let args: Vec<Vec<u8>> = split_arguments(looked_at);
    let ghost shown = views(args@);
    let mut count: usize = args.len();
    assert(shown.take(count as int) =~= shown);
    while count > 0 && args[count - 1].len() == 0
        invariant
            count <= args@.len(),
            shown == views(args@),
            without_empty_end(shown) == without_empty_end(shown.take(count as int)),
        decreases count,
    {
        assert(shown[count - 1] == args@[count - 1]@);
        assert(shown.take(count as int).drop_last() =~= shown.take(count - 1));
        count -= 1;
    }
    assert(count > 0 ==> shown[count - 1] == args@[count - 1]@);
    assert(without_empty_end(shown) == shown.take(count as int));
    let mut command: String = String::new();
    let mut i: usize = 0;
    assert(command@ =~= spelled_out(shown.take(0)));
    while i < count
        invariant
            i <= count <= args@.len(),
            shown == views(args@),
            command@ == spelled_out(shown.take(i as int)),
            forall|k: int|
                0 <= k < i && (#[trigger] shown[k]).len() > 0 ==> reads_utf8(shown[k]),
        decreases count - i,
    {
        let ghost before = command@;
        assert(shown[i as int] == args@[i as int]@);
        assert(shown.take(i + 1).drop_last() =~= shown.take(i as int));
        if i > 0 {
            command.append(" ");
        }
        let arg: String = decoded_argument(args[i].as_slice());
        command.append(arg.as_str());
        if i == 0 {
            assert(command@ =~= shown_argument(shown[0]));
            assert(shown.take(1)[0] == shown[0]);
        }
        i += 1;
    }
    if truncated {
        command.append(" …");
    }
    command
}

fn in_brackets(name: &str) -> (result: String)
    ensures
        result@ == "["@ + name@ + "]"@,
{
    let mut result: String = "[".to_owned();
    result.append(name);
    result.append("]");
    result
}

// ---------------------------------------------------------------------------
// Users
// ---------------------------------------------------------------------------

/// The effective user that a row gives.
pub open spec fn uid_row(row: Seq<char>) -> Option<nat> {
    let fields = words(row.skip("Uid:"@.len() as int));
    if begins(row, "Uid:"@) && fields.len() >= 2 {
        unsigned(fields[1], u32::MAX as nat)
    } else {
        None
    }
}

/// The effective user that the first of the rows to give one gives.
pub open spec fn uid_of(rows: Seq<Seq<char>>) -> Option<nat>
    decreases rows.len(),
{
    if rows.len() == 0 {
        None
    } else {
        match uid_of(rows.drop_last()) {
            Some(uid) => Some(uid),
            None => uid_row(rows.last()),
        }
    }
}

fn parse_uid_row(row: &[char]) -> (result: Option<u32>)
    ensures
        result matches Some(uid) ==> uid_row(row@) == Some(uid as nat),
        result is None ==> uid_row(row@) is None,
{
    let prefix: Vec<char> = characters("Uid:");
    if !starts_with(row, prefix.as_slice()) {
        return None;
    }
    let rest: &[char] = slice_subrange(row, prefix.len(), row.len());
    assert(rest@ =~= row@.skip("Uid:"@.len() as int));
    let fields: Vec<Vec<char>> = split_whitespace(rest);
    assert(words(rest@).len() == fields@.len());
    if fields.len() < 2 {
        return None;
    }
    assert(words(rest@)[1] == fields@[1]@);
    parse_u32(fields[1].as_slice())
}

/// The effective user of a process, from its `status`.
pub fn effective_uid(status: &str) -> (result: Option<u32>)
    ensures
        result matches Some(uid) ==> uid_of(lines(status@)) == Some(uid as nat),
        result is None ==> uid_of(lines(status@)) is None,
{
    let rows: Vec<Vec<char>> = rows_of(status);
    let ghost all = lines(status@);
    let mut result: Option<u32> = None;
    let mut i: usize = 0;
    while i < rows.len()
        invariant
            i <= rows@.len(),
            all == views(rows@),
            result matches Some(uid) ==> uid_of(all.take(i as int)) == Some(uid as nat),
            result is None ==> uid_of(all.take(i as int)) is None,
        decreases rows@.len() - i,
    {
        assert(all[i as int] == rows@[i as int]@);
        assert(all.take(i + 1).drop_last() =~= all.take(i as int));
        if result.is_none() {
            result = parse_uid_row(rows[i].as_slice());
        }
        i += 1;
    }
    assert(all.take(i as int) =~= all);
    result
}

/// The user that a row of `/etc/passwd` names.
pub open spec fn user_row(row: Seq<char>) -> Option<(u32, Seq<char>)> {
    let fields = pieces(row, ':');
    if fields[0].len() == 0 || fields.len() < 3 {
        None
    } else {
        match unsigned(fields[2], u32::MAX as nat) {
            Some(uid) => Some((uid as u32, sanitized(fields[0]))),
            None => None,
        }
    }
}

/// The users that rows name: of two with one number the first counts.
pub open spec fn users_of(rows: Seq<Seq<char>>) -> Map<u32, Seq<char>>
    decreases rows.len(),
{
    if rows.len() == 0 {
        Map::empty()
    } else {
        let before = users_of(rows.drop_last());
        match user_row(rows.last()) {
            Some((uid, name)) => if before.contains_key(uid) {
                before
            } else {
                before.insert(uid, name)
            },
            None => before,
        }
    }
}

/// The names of users by their numbers.
pub open spec fn user_names(users: Map<u32, String>) -> Map<u32, Seq<char>> {
    users.map_values(|name: String| name@)
}

fn parse_user_row(row: &[char]) -> (result: Option<(u32, String)>)
    ensures
        result is None <==> user_row(row@) is None,
        result matches Some((uid, name)) ==> user_row(row@) == Some((uid, name@)),
{
    let fields: Vec<Vec<char>> = split(row, ':');
    let ghost shown = pieces(row@, ':');
    assert(shown.len() == fields@.len());
    assert(shown.len() > 0);
    assert(shown[0] == fields@[0]@);
    if fields[0].len() == 0 || fields.len() < 3 {
        return None;
    }
    assert(shown[2] == fields@[2]@);
    match parse_u32(fields[2].as_slice()) {
        Some(uid) => Some((uid, sanitize_characters(fields[0].as_slice()))),
        None => None,
    }
}

/// The names of users, from `/etc/passwd`.
pub fn parse_users(passwd: &str) -> (result: HashMap<u32, String>)
    ensures
        user_names(result@) == users_of(lines(passwd@)),
{
    broadcast use vstd::std_specs::hash::group_hash_axioms;

    let rows: Vec<Vec<char>> = rows_of(passwd);
    let ghost all = lines(passwd@);
    let mut users: HashMap<u32, String> = HashMap::new();
    let mut i: usize = 0;
    assert(user_names(users@) =~= users_of(all.take(0)));
    while i < rows.len()
        invariant
            i <= rows@.len(),
            all == views(rows@),
            user_names(users@) == users_of(all.take(i as int)),
        decreases rows@.len() - i,
    {
        assert(all[i as int] == rows@[i as int]@);
        assert(all.take(i + 1).drop_last() =~= all.take(i as int));
        let ghost before = user_names(users@);
        match parse_user_row(rows[i].as_slice()) {
            Some((uid, name)) => {
                assert(before.contains_key(uid) == users@.contains_key(uid));
                if !users.contains_key(&uid) {
                    let ghost shown = name@;
                    users.insert(uid, name);
                    assert(user_names(users@) =~= before.insert(uid, shown));
                }
            },
            None => {},
        }
        i += 1;
    }
    assert(all.take(i as int) =~= all);
    users
}

// ---------------------------------------------------------------------------
// The state of a process
// ---------------------------------------------------------------------------

/// The number that the name of a process's directory gives: digits alone, above zero.
pub open spec fn pid_of(name: Seq<char>) -> Option<nat> {
    if all_digits(name) && 0 < digits_value(name) <= u32::MAX {
        Some(digits_value(name))
    } else {
        None
    }
}

/// The number that the name of a process's directory gives.
pub fn parse_pid_directory(name: &str) -> (result: Option<u32>)
    ensures
        result matches Some(pid) ==> pid_of(name@) == Some(pid as nat),
        result is None ==> pid_of(name@) is None,
{
    let all: Vec<char> = characters(name);
    if all.len() == 0 || all[0] == '+' {
        assert(!all_digits(name@)) by {
            if all@.len() > 0 {
                assert(!is_digit(name@[0]));
            }
        }
        return None;
    }
    match parse_u32(all.as_slice()) {
        Some(pid) => if pid > 0 {
            Some(pid)
        } else {
            None
        },
        None => None,
    }
}

/// What the `stat` of a process says.
#[derive(Clone, Debug)]
pub struct ProcessStat {
    pub name: String,
    pub state: char,
    pub ppid: u32,
    pub cpu_ticks: u64,
    pub priority: i64,
    pub nice: i64,
    pub threads: u64,
    pub start_time_ticks: u64,
    pub virtual_bytes: Option<u64>,
    pub resident_pages: Option<u64>,
}

#[verifier::ext_equal]
pub struct StatView {
    pub name: Seq<char>,
    pub state: char,
    pub ppid: u32,
    pub cpu_ticks: u64,
    pub priority: i64,
    pub nice: i64,
    pub threads: u64,
    pub start_time_ticks: u64,
    pub virtual_bytes: Option<u64>,
    pub resident_pages: Option<u64>,
}

impl View for ProcessStat {
    type V = StatView;

    open spec fn view(&self) -> StatView {
        StatView {
            name: self.name@,
            state: self.state,
            ppid: self.ppid,
            cpu_ticks: self.cpu_ticks,
            priority: self.priority,
            nice: self.nice,
            threads: self.threads,
            start_time_ticks: self.start_time_ticks,
            virtual_bytes: self.virtual_bytes,
            resident_pages: self.resident_pages,
        }
    }
}

pub open spec fn is_letter(c: char) -> bool {
    'a' <= c <= 'z' || 'A' <= c <= 'Z'
}

/// Whether the fields behind the name are what a `stat` has: a letter, and in
/// the places that are read numbers that fit. The virtual and the resident size
/// only have to be there.
pub open spec fn are_stat_fields(fields: Seq<Seq<char>>) -> bool {
    &&& fields.len() >= 22
    &&& fields[0].len() == 1 && is_letter(fields[0][0])
    &&& unsigned(fields[1], u32::MAX as nat) is Some
    &&& unsigned(fields[11], u64::MAX as nat) is Some
    &&& unsigned(fields[12], u64::MAX as nat) is Some
    &&& unsigned(fields[11], u64::MAX as nat)->0 + unsigned(fields[12], u64::MAX as nat)->0
        <= u64::MAX
    &&& signed(fields[15]) is Some
    &&& signed(fields[16]) is Some
    &&& unsigned(fields[17], u64::MAX as nat) is Some
    &&& unsigned(fields[19], u64::MAX as nat) is Some
}

/// What a `stat` says of the process with a number. The name stands between the
/// first opening and the last closing parenthesis, for it can hold either.
pub open spec fn stat_of(text: Seq<char>, pid: u32) -> Option<StatView> {
    let start = first_index(text, '(') as int;
    let behind = behind_last(text, ')') as int;
    let fields = words(text.skip(behind));
    if start >= text.len() || behind == 0 || behind - 1 <= start {
        None
    } else if unsigned(trimmed(text.take(start)), u32::MAX as nat) != Some(pid as nat) {
        None
    } else if !are_stat_fields(fields) {
        None
    } else {
        Some(
            StatView {
                name: text.subrange(start + 1, behind - 1),
                state: fields[0][0],
                ppid: unsigned(fields[1], u32::MAX as nat)->0 as u32,
                cpu_ticks: (unsigned(fields[11], u64::MAX as nat)->0 + unsigned(
                    fields[12],
                    u64::MAX as nat,
                )->0) as u64,
                priority: signed(fields[15])->0 as i64,
                nice: signed(fields[16])->0 as i64,
                threads: unsigned(fields[17], u64::MAX as nat)->0 as u64,
                start_time_ticks: unsigned(fields[19], u64::MAX as nat)->0 as u64,
                virtual_bytes: match unsigned(fields[20], u64::MAX as nat) {
                    Some(bytes) => Some(bytes as u64),
                    None => None,
                },
                resident_pages: match signed(fields[21]) {
                    Some(pages) => if pages >= 0 {
                        Some(pages as u64)
                    } else {
                        None
                    },
                    None => None,
                },
            },
        )
    }
}

fn parse_stat_fields(name: &[char], fields: &Vec<Vec<char>>) -> (result: Option<ProcessStat>)
    ensures
        result is Some <==> are_stat_fields(views(fields@)),
        result matches Some(stat) ==> ({
            let all = views(fields@);
            &&& stat.name@ == name@
            &&& stat.state == all[0][0]
            &&& stat.ppid == unsigned(all[1], u32::MAX as nat)->0
            &&& stat.cpu_ticks == unsigned(all[11], u64::MAX as nat)->0 + unsigned(
                all[12],
                u64::MAX as nat,
            )->0
            &&& stat.priority == signed(all[15])->0
            &&& stat.nice == signed(all[16])->0
            &&& stat.threads == unsigned(all[17], u64::MAX as nat)->0
            &&& stat.start_time_ticks == unsigned(all[19], u64::MAX as nat)->0
            &&& stat.virtual_bytes == match unsigned(all[20], u64::MAX as nat) {
                Some(bytes) => Some(bytes as u64),
                None => None,
            }
            &&& stat.resident_pages == match signed(all[21]) {
                Some(pages) => if pages >= 0 {
                    Some(pages as u64)
                } else {
                    None
                },
                None => None,
            }
        }),
{
    let ghost all = views(fields@);
    if fields.len() < 22 {
        return None;
    }
    assert forall|i: int| 0 <= i < fields@.len() implies all[i] == (#[trigger] fields@[i])@ by {}
    assert(all[0] == fields@[0]@);
    assert(all[1] == fields@[1]@);
    assert(all[11] == fields@[11]@);
    assert(all[12] == fields@[12]@);
    assert(all[15] == fields@[15]@);
    assert(all[16] == fields@[16]@);
    assert(all[17] == fields@[17]@);
    assert(all[19] == fields@[19]@);
    assert(all[20] == fields@[20]@);
    assert(all[21] == fields@[21]@);
    if fields[0].len() != 1 {
        return None;
    }
    let state: char = fields[0][0];
    match state {
        'a'..='z' => {},
        'A'..='Z' => {},
        _ => {
            return None;
        },
    }
    let ppid: u32 = match parse_u32(fields[1].as_slice()) {
        Some(value) => value,
        None => {
            return None;
        },
    };
    let user: u64 = match parse_u64(fields[11].as_slice()) {
        Some(value) => value,
        None => {
            return None;
        },
    };
    let system: u64 = match parse_u64(fields[12].as_slice()) {
        Some(value) => value,
        None => {
            return None;
        },
    };
    let cpu_ticks: u64 = match user.checked_add(system) {
        Some(value) => value,
        None => {
            return None;
        },
    };
    let priority: i64 = match parse_i64(fields[15].as_slice()) {
        Some(value) => value,
        None => {
            return None;
        },
    };
    let nice: i64 = match parse_i64(fields[16].as_slice()) {
        Some(value) => value,
        None => {
            return None;
        },
    };
    let threads: u64 = match parse_u64(fields[17].as_slice()) {
        Some(value) => value,
        None => {
            return None;
        },
    };
    let start_time_ticks: u64 = match parse_u64(fields[19].as_slice()) {
        Some(value) => value,
        None => {
            return None;
        },
    };
    let resident_pages: Option<u64> = match parse_i64(fields[21].as_slice()) {
        Some(pages) => if pages >= 0 {
            Some(pages as u64)
        } else {
            None
        },
        None => None,
    };
    Some(
        ProcessStat {
            name: string_of(name),
            state,
            ppid,
            cpu_ticks,
            priority,
            nice,
            threads,
            start_time_ticks,
            virtual_bytes: parse_u64(fields[20].as_slice()),
            resident_pages,
        },
    )
}

/// What a `stat` says of the process with the expected number.
pub fn parse_stat(text: &str, expected_pid: u32) -> (result: Option<ProcessStat>)
    ensures
        optional_view(result) == stat_of(text@, expected_pid),
{
    let all: Vec<char> = characters(text);
    let start: usize = find(all.as_slice(), '(');
    let behind: usize = rfind(all.as_slice(), ')');
    if start >= all.len() || behind == 0 || behind - 1 <= start {
        return None;
    }
    let front: &[char] = slice_subrange(all.as_slice(), 0, start);
    assert(front@ =~= text@.take(start as int));
    match parse_u32(trim(front)) {
        Some(pid) => {
            if pid != expected_pid {
                return None;
            }
        },
        None => {
            return None;
        },
    }
    let name: &[char] = slice_subrange(all.as_slice(), start + 1, behind - 1);
    let back: &[char] = slice_subrange(all.as_slice(), behind, all.len());
    assert(name@ =~= text@.subrange(start + 1, behind - 1));
    assert(back@ =~= text@.skip(behind as int));
    let fields: Vec<Vec<char>> = split_whitespace(back);
    parse_stat_fields(name, &fields)
}

/// How reading a file failed.
#[derive(Clone, Copy, Debug, PartialEq, Eq, Structural)]
pub struct Failure {
    pub not_found: bool,
    pub os_error: Option<i32>,
}

/// Whether a failure means that the process has gone.
pub open spec fn means_gone(failure: Failure) -> bool {
    failure.not_found || failure.os_error == Some(3i32)
}

/// Whether a failure means that the process has gone.
pub fn process_disappeared(failure: &Failure) -> (result: bool)
    ensures
        result == means_gone(*failure),
{
    failure.not_found || match failure.os_error {
        Some(code) => code == no_such_process(),
        None => false,
    }
}

/// The bytes of a file, or how reading it failed.
pub open spec fn file_view(file: Result<Vec<u8>, Failure>) -> Result<Seq<u8>, Failure> {
    match file {
        Ok(bytes) => Ok(bytes@),
        Err(failure) => Err(failure),
    }
}

/// What the bytes of a `stat` say; a failure where they are none.
pub open spec fn stat_read(file: Result<Seq<u8>, Failure>, pid: u32) -> Result<StatView, Failure> {
    match file {
        Ok(bytes) => match stat_of(lossy_text(bytes), pid) {
            Some(stat) => Ok(stat),
            None => Err(Failure { not_found: false, os_error: None }),
        },
        Err(failure) => Err(failure),
    }
}

/// Whether the bytes of a `stat`, where they are UTF-8, stand for the text that they
/// encode.
pub open spec fn stat_reads_utf8(file: Result<Seq<u8>, Failure>) -> bool {
    match file {
        Ok(bytes) => reads_utf8(bytes),
        Err(_) => true,
    }
}

/// What the `stat` of the process with the expected number says.
pub fn read_stat(file: &Result<Vec<u8>, Failure>, expected_pid: u32) -> (result: Result<
    ProcessStat,
    Failure,
>)
    ensures
        match (result, stat_read(file_view(*file), expected_pid)) {
            (Ok(stat), Ok(shown)) => stat@ == shown,
            (Err(failure), Err(other)) => failure == other,
            _ => false,
        },
        stat_reads_utf8(file_view(*file)),
{
    match file {
        Ok(bytes) => {
            let text: String = decoded(bytes.as_slice());
            match parse_stat(text.as_str(), expected_pid) {
                Some(stat) => Ok(stat),
                None => Err(Failure { not_found: false, os_error: None }),
            }
        },
        Err(failure) => Err(*failure),
    }
}

// ---------------------------------------------------------------------------
// Rates
// ---------------------------------------------------------------------------

/// What a process had used at the last sample.
#[derive(Clone, Copy, Debug, PartialEq, Eq, Structural)]
pub struct PreviousProcess {
    pub start_time_ticks: u64,
    pub cpu_ticks: u64,
    /// In nanoseconds.
    pub sampled_at: u64,
}

/// The CPU time that a process has used since the last sample, in percent of the
/// time that has passed. There is none where the number has gone to another
/// process, where no time has passed, or where the counter has moved back.
pub open spec fn cpu_share(
    previous: PreviousProcess,
    start_time_ticks: u64,
    cpu_ticks: u64,
    sampled_at: u64,
    ticks_per_second: Double,
) -> Option<Double> {
    let elapsed = Double::seconds((sampled_at - previous.sampled_at) as nat);
    let share = Double::integer((cpu_ticks - previous.cpu_ticks) as nat).quotient(
        ticks_per_second,
    ).quotient(elapsed).product(Double::integer(100));
    if previous.start_time_ticks == start_time_ticks && ticks_per_second.finite()
        && Double::zero().less(ticks_per_second) && previous.sampled_at <= sampled_at
        && Double::zero().less(elapsed) && previous.cpu_ticks <= cpu_ticks && share.finite() {
        Some(share)
    } else {
        None
    }
}

/// The CPU time that a process has used since the last sample, in percent.
pub fn cpu_percent(
    previous: PreviousProcess,
    current: &ProcessStat,
    sampled_at: u64,
    ticks_per_second: Double,
) -> (result: Option<Double>)
    ensures
        result == cpu_share(
            previous,
            current.start_time_ticks,
            current.cpu_ticks,
            sampled_at,
            ticks_per_second,
        ),
{
    let zero: Double = Double::from_bits(0);
    if previous.start_time_ticks != current.start_time_ticks || !ticks_per_second.is_finite()
        || !zero.is_less(ticks_per_second) || sampled_at < previous.sampled_at {
        return None;
    }
    let elapsed: Double = Double::from_nanoseconds(sampled_at - previous.sampled_at);
    if !zero.is_less(elapsed) || current.cpu_ticks < previous.cpu_ticks {
        return None;
    }
    let ticks: Double = Double::from_integer((current.cpu_ticks - previous.cpu_ticks) as u128);
    let share: Double = ticks.div(ticks_per_second).div(elapsed).mul(Double::from_integer(100));
    if share.is_finite() {
        Some(share)
    } else {
        None
    }
}

// ---------------------------------------------------------------------------
// Samples
// ---------------------------------------------------------------------------

/// A process.
#[derive(Clone, Debug)]
pub struct Process {
    pub pid: u32,
    pub ppid: u32,
    pub uid: Option<u32>,
    pub user: String,
    pub state: char,
    pub priority: i64,
    pub nice: i64,
    pub threads: u64,
    pub virtual_bytes: Option<u64>,
    pub resident_bytes: Option<u64>,
    pub shared_bytes: Option<u64>,
    /// 100% means one logical CPU; multithreaded processes can exceed 100%.
    pub cpu_percent: Option<Double>,
    /// Resident memory as a percentage of physical system memory.
    pub memory_percent: Option<Double>,
    /// User plus system CPU time, excluding reaped children.
    pub cpu_time_secs: Double,
    pub elapsed_secs: Option<Double>,
    pub name: String,
    pub command: String,
    /// Together with PID, identifies a process across refreshes and PID reuse.
    pub start_time_ticks: u64,
}

#[verifier::ext_equal]
pub struct ProcessData {
    pub pid: u32,
    pub ppid: u32,
    pub uid: Option<u32>,
    pub user: Seq<char>,
    pub state: char,
    pub priority: i64,
    pub nice: i64,
    pub threads: u64,
    pub virtual_bytes: Option<u64>,
    pub resident_bytes: Option<u64>,
    pub shared_bytes: Option<u64>,
    pub cpu_percent: Option<Double>,
    pub memory_percent: Option<Double>,
    pub cpu_time_secs: Double,
    pub elapsed_secs: Option<Double>,
    pub name: Seq<char>,
    pub command: Seq<char>,
    pub start_time_ticks: u64,
}

impl View for Process {
    type V = ProcessData;

    open spec fn view(&self) -> ProcessData {
        ProcessData {
            pid: self.pid,
            ppid: self.ppid,
            uid: self.uid,
            user: self.user@,
            state: self.state,
            priority: self.priority,
            nice: self.nice,
            threads: self.threads,
            virtual_bytes: self.virtual_bytes,
            resident_bytes: self.resident_bytes,
            shared_bytes: self.shared_bytes,
            cpu_percent: self.cpu_percent,
            memory_percent: self.memory_percent,
            cpu_time_secs: self.cpu_time_secs,
            elapsed_secs: self.elapsed_secs,
            name: self.name@,
            command: self.command@,
            start_time_ticks: self.start_time_ticks,
        }
    }
}

/// The processes at one time.
#[derive(Clone, Debug)]
pub struct ProcessSnapshot {
    pub processes: Vec<Process>,
    pub warnings: Vec<String>,
}

impl Default for ProcessSnapshot {
    fn default() -> (result: Self)
        ensures
            result.processes@.len() == 0,
            result.warnings@.len() == 0,
    {
        ProcessSnapshot { processes: Vec::new(), warnings: Vec::new() }
    }
}

/// The files of a process, in the order in which they are read. The second `stat`
/// tells whether the files between are those of one process.
#[derive(Debug)]
pub struct ProcessFiles {
    /// The name of the directory, where it is text.
    pub directory: Option<String>,
    pub stat: Result<Vec<u8>, Failure>,
    pub status: Option<Vec<u8>>,
    pub statm: Option<Vec<u8>>,
    pub cmdline: Option<Vec<u8>>,
    pub stat_again: Result<Vec<u8>, Failure>,
    /// When the second `stat` was read, in nanoseconds.
    pub sampled_at: u64,
}

#[verifier::ext_equal]
pub struct ProcessFilesView {
    pub directory: Option<Seq<char>>,
    pub stat: Result<Seq<u8>, Failure>,
    pub status: Option<Seq<u8>>,
    pub statm: Option<Seq<u8>>,
    pub cmdline: Option<Seq<u8>>,
    pub stat_again: Result<Seq<u8>, Failure>,
    pub sampled_at: u64,
}

impl View for ProcessFiles {
    type V = ProcessFilesView;

    open spec fn view(&self) -> ProcessFilesView {
        ProcessFilesView {
            directory: optional_view(self.directory),
            stat: file_view(self.stat),
            status: optional_view(self.status),
            statm: optional_view(self.statm),
            cmdline: optional_view(self.cmdline),
            stat_again: file_view(self.stat_again),
            sampled_at: self.sampled_at,
        }
    }
}

/// An entry of the process directory.
#[derive(Debug)]
pub enum Entry {
    /// One that could not be listed.
    Failed,
    Listed(ProcessFiles),
}

#[verifier::ext_equal]
pub enum EntryView {
    Failed,
    Listed(ProcessFilesView),
}

impl View for Entry {
    type V = EntryView;

    open spec fn view(&self) -> EntryView {
        match self {
            Entry::Failed => EntryView::Failed,
            Entry::Listed(files) => EntryView::Listed(files@),
        }
    }
}

/// All that there is to read of the processes for one sample.
#[derive(Debug)]
pub struct ProcessReadings {
    pub uptime: Option<Vec<u8>>,
    /// The entries of the process directory; `None` where it could not be read.
    pub entries: Option<Vec<Entry>>,
}

/// What is known of a system's processes, and kept from one sample to the next.
#[derive(Debug)]
pub struct ProcessCollector {
    pub ticks_per_second: Option<Double>,
    pub page_bytes: Option<u64>,
    pub users: HashMap<u32, String>,
    pub previous: HashMap<u32, PreviousProcess>,
}

/// What a sample takes from the collector and from the rest of the system.
#[verifier::ext_equal]
pub struct Circumstances {
    pub ticks_per_second: Option<Double>,
    pub page_bytes: Option<u64>,
    pub users: Map<u32, Seq<char>>,
    pub previous: Map<u32, PreviousProcess>,
    pub uptime: Option<Double>,
    pub total_memory_bytes: u64,
}

/// The seconds that the system has been up: the first word of its `uptime`.
pub open spec fn uptime_said(text: Seq<char>) -> Option<Double> {
    if words(text).len() > 0 {
        nonnegative(words(text)[0])
    } else {
        None
    }
}

/// The seconds that the system has been up.
pub open spec fn uptime_read(file: Option<Seq<u8>>) -> Option<Double> {
    match file {
        Some(bytes) => uptime_said(lossy_text(bytes)),
        None => None,
    }
}

/// The effective user of a process.
pub open spec fn uid_read(status: Option<Seq<u8>>) -> Option<u32> {
    match status {
        Some(bytes) => match uid_of(lines(lossy_text(bytes))) {
            Some(uid) => Some(uid as u32),
            None => None,
        },
        None => None,
    }
}

/// The pages that a process shares: the third word of its `statm`.
pub open spec fn shared_said(text: Seq<char>) -> Option<u64> {
    if words(text).len() < 3 {
        None
    } else {
        match unsigned(words(text)[2], u64::MAX as nat) {
            Some(pages) => Some(pages as u64),
            None => None,
        }
    }
}

/// The pages that a process shares.
pub open spec fn shared_pages(statm: Option<Seq<u8>>) -> Option<u64> {
    match statm {
        Some(bytes) => shared_said(lossy_text(bytes)),
        None => None,
    }
}

/// The bytes of so many pages, where they can be counted.
pub open spec fn page_total(pages: Option<u64>, page_bytes: Option<u64>) -> Option<u64> {
    match (pages, page_bytes) {
        (Some(count), Some(size)) => if count * size <= u64::MAX {
            Some((count * size) as u64)
        } else {
            None
        },
        _ => None,
    }
}

/// The name of a user: the number where there is no name.
pub open spec fn user_of(uid: Option<u32>, users: Map<u32, Seq<char>>) -> Seq<char> {
    match uid {
        Some(number) => if users.contains_key(number) {
            users[number]
        } else {
            decimal(number as nat)
        },
        None => "Unavailable"@,
    }
}

impl Circumstances {
    /// What a sample says of a process.
    pub open spec fn process(self, pid: u32, stat: StatView, files: ProcessFilesView)
        -> ProcessData {
        let resident = page_total(stat.resident_pages, self.page_bytes);
        let name = sanitized(stat.name);
        ProcessData {
            pid,
            ppid: stat.ppid,
            uid: uid_read(files.status),
            user: user_of(uid_read(files.status), self.users),
            state: stat.state,
            priority: stat.priority,
            nice: stat.nice,
            threads: stat.threads,
            virtual_bytes: stat.virtual_bytes,
            resident_bytes: resident,
            shared_bytes: page_total(shared_pages(files.statm), self.page_bytes),
            cpu_percent: match self.ticks_per_second {
                Some(ticks) => if self.previous.contains_key(pid) {
                    cpu_share(
                        self.previous[pid],
                        stat.start_time_ticks,
                        stat.cpu_ticks,
                        files.sampled_at,
                        ticks,
                    )
                } else {
                    None
                },
                None => None,
            },
            memory_percent: match resident {
                Some(bytes) => if self.total_memory_bytes > 0 {
                    Some(
                        Double::integer(bytes as nat).quotient(
                            Double::integer(self.total_memory_bytes as nat),
                        ).product(Double::integer(100)),
                    )
                } else {
                    None
                },
                None => None,
            },
            cpu_time_secs: match self.ticks_per_second {
                Some(ticks) => Double::integer(stat.cpu_ticks as nat).quotient(ticks),
                None => Double::no_number(),
            },
            elapsed_secs: match (self.uptime, self.ticks_per_second) {
                (Some(uptime), Some(ticks)) => Some(
                    uptime.difference(
                        Double::integer(stat.start_time_ticks as nat).quotient(ticks),
                    ).maximum(Double::zero()),
                ),
                _ => None,
            },
            name,
            command: command_of(files.cmdline, name),
            start_time_ticks: stat.start_time_ticks,
        }
    }

    /// Whether something that should be known of a process is missing.
    pub open spec fn incomplete(self, stat: StatView, files: ProcessFilesView) -> bool {
        ||| uid_read(files.status) is None
        ||| shared_pages(files.statm) is None
        ||| files.cmdline is None
        ||| stat.virtual_bytes is None
        ||| stat.resident_pages is None
        ||| self.page_bytes is Some && (page_total(stat.resident_pages, self.page_bytes) is None
            || page_total(shared_pages(files.statm), self.page_bytes) is None)
    }
}

/// What became of an entry of the process directory.
#[verifier::ext_equal]
pub enum Outcome {
    /// No process, or one that has gone or was replaced while it was read.
    Passed,
    /// One that could not be read.
    Unreadable,
    /// The process with a number.
    Read { pid: u32, stat: StatView, files: ProcessFilesView },
}

/// What becomes of an entry: the files of a process count only where the same
/// process is there before and behind them.
pub open spec fn outcome(entry: EntryView) -> Outcome {
    match entry {
        EntryView::Failed => Outcome::Unreadable,
        EntryView::Listed(files) => match pid_named(files.directory) {
            None => Outcome::Passed,
            Some(pid) => match (stat_read(files.stat, pid), stat_read(files.stat_again, pid)) {
                (Err(failure), _) => if means_gone(failure) {
                    Outcome::Passed
                } else {
                    Outcome::Unreadable
                },
                (Ok(_), Err(failure)) => if means_gone(failure) {
                    Outcome::Passed
                } else {
                    Outcome::Unreadable
                },
                (Ok(initial), Ok(stat)) => if initial.start_time_ticks == stat.start_time_ticks {
                    Outcome::Read { pid, stat, files }
                } else {
                    Outcome::Passed
                },
            },
        },
    }
}

/// Whether the files of an entry that are looked at, where they are UTF-8, stand for
/// the texts that they encode: the first `stat` of a process, the second where the first
/// could be read, and the others where the process is the same in both.
pub open spec fn entry_reads_utf8(entry: EntryView) -> bool {
    match entry {
        EntryView::Failed => true,
        EntryView::Listed(files) => match pid_named(files.directory) {
            None => true,
            Some(pid) => {
                &&& stat_reads_utf8(files.stat)
                &&& stat_read(files.stat, pid) is Ok ==> stat_reads_utf8(files.stat_again)
                &&& outcome(entry) is Read ==> {
                    &&& file_reads_utf8(files.status)
                    &&& file_reads_utf8(files.statm)
                    &&& command_reads_utf8(files.cmdline)
                }
            },
        },
    }
}

pub open spec fn pid_named(directory: Option<Seq<char>>) -> Option<u32> {
    match directory {
        Some(name) => match pid_of(name) {
            Some(pid) => Some(pid as u32),
            None => None,
        },
        None => None,
    }
}

/// The processes that entries give.
pub open spec fn processes_of(entries: Seq<EntryView>, around: Circumstances) -> Seq<ProcessData>
    decreases entries.len(),
{
    if entries.len() == 0 {
        Seq::empty()
    } else {
        match outcome(entries.last()) {
            Outcome::Read { pid, stat, files } => processes_of(
                entries.drop_last(),
                around,
            ).push(around.process(pid, stat, files)),
            _ => processes_of(entries.drop_last(), around),
        }
    }
}

/// What the next sample starts from.
pub open spec fn process_baselines(entries: Seq<EntryView>) -> Map<u32, PreviousProcess>
    decreases entries.len(),
{
    if entries.len() == 0 {
        Map::empty()
    } else {
        match outcome(entries.last()) {
            Outcome::Read { pid, stat, files } => process_baselines(entries.drop_last()).insert(
                pid,
                PreviousProcess {
                    start_time_ticks: stat.start_time_ticks,
                    cpu_ticks: stat.cpu_ticks,
                    sampled_at: files.sampled_at,
                },
            ),
            _ => process_baselines(entries.drop_last()),
        }
    }
}

/// How many entries could not be read.
pub open spec fn unreadable_entries(entries: Seq<EntryView>) -> nat
    decreases entries.len(),
{
    if entries.len() == 0 {
        0
    } else {
        unreadable_entries(entries.drop_last()) + if outcome(entries.last()) is Unreadable {
            1nat
        } else {
            0nat
        }
    }
}

/// How many processes lack something that should be known of them.
pub open spec fn incomplete_entries(entries: Seq<EntryView>, around: Circumstances) -> nat
    decreases entries.len(),
{
    if entries.len() == 0 {
        0
    } else {
        incomplete_entries(entries.drop_last(), around) + match outcome(entries.last()) {
            Outcome::Read { pid, stat, files } => if around.incomplete(stat, files) {
                1nat
            } else {
                0nat
            },
            _ => 0nat,
        }
    }
}

pub open spec fn notice_if(condition: bool, notice: Seq<char>) -> Seq<Seq<char>> {
    if condition {
        seq![notice]
    } else {
        Seq::empty()
    }
}

/// The notices of a sample of the processes.
pub open spec fn process_notices(
    entries: Option<Seq<EntryView>>,
    around: Circumstances,
) -> Seq<Seq<char>> {
    notice_if(
        around.ticks_per_second is None,
        "The system clock tick rate is unavailable; process CPU times and rates cannot be measured."@,
    ) + notice_if(
        around.page_bytes is None,
        "The system page size is unavailable; process resident and shared memory cannot be measured."@,
    ) + notice_if(
        around.uptime is None,
        "System uptime is unavailable; process elapsed times cannot be measured."@,
    ) + match entries {
        None => seq![
            "Processes are unavailable because the process directory cannot be read."@,
        ],
        Some(all) => notice_if(
            unreadable_entries(all) > 0,
            decimal(unreadable_entries(all))
                + " process entries could not be read. Permissions or procfs restrictions may limit the list."@,
        ) + notice_if(
            incomplete_entries(all, around) > 0,
            decimal(incomplete_entries(all, around))
                + " processes have incomplete details; unavailable values are shown as unavailable."@,
        ),
    }
}

impl ProcessReadings {
    pub open spec fn shown(self) -> Option<Seq<EntryView>> {
        match self.entries {
            Some(entries) => Some(views(entries@)),
            None => None,
        }
    }
}

/// The seconds that the system has been up, from its `uptime`.
pub fn parse_uptime(text: &str) -> (result: Option<Double>)
    ensures
        result == uptime_said(text@),
{
    let all: Vec<char> = characters(text);
    let fields: Vec<Vec<char>> = split_whitespace(all.as_slice());
    assert(words(text@).len() == fields@.len());
    if fields.len() == 0 {
        return None;
    }
    assert(words(text@)[0] == fields@[0]@);
    parse_nonnegative(fields[0].as_slice())
}

fn read_uptime(file: &Option<Vec<u8>>) -> (result: Option<Double>)
    ensures
        result == uptime_read(optional_view(*file)),
        file_reads_utf8(optional_view(*file)),
{
    match file {
        Some(bytes) => {
            let text: String = decoded(bytes.as_slice());
            parse_uptime(text.as_str())
        },
        None => None,
    }
}

fn read_uid(status: &Option<Vec<u8>>) -> (result: Option<u32>)
    ensures
        result == uid_read(optional_view(*status)),
        file_reads_utf8(optional_view(*status)),
{
    match status {
        Some(bytes) => {
            let text: String = decoded(bytes.as_slice());
            effective_uid(text.as_str())
        },
        None => None,
    }
}

/// The pages that a process shares, from its `statm`.
pub fn parse_shared_pages(text: &str) -> (result: Option<u64>)
    ensures
        result == shared_said(text@),
{
    let all: Vec<char> = characters(text);
    let fields: Vec<Vec<char>> = split_whitespace(all.as_slice());
    assert(words(text@).len() == fields@.len());
    if fields.len() < 3 {
        return None;
    }
    assert(words(text@)[2] == fields@[2]@);
    parse_u64(fields[2].as_slice())
}

fn read_shared_pages(statm: &Option<Vec<u8>>) -> (result: Option<u64>)
    ensures
        result == shared_pages(optional_view(*statm)),
        file_reads_utf8(optional_view(*statm)),
{
    match statm {
        Some(bytes) => {
            let text: String = decoded(bytes.as_slice());
            parse_shared_pages(text.as_str())
        },
        None => None,
    }
}

fn bytes_of_pages(pages: Option<u64>, page_bytes: Option<u64>) -> (result: Option<u64>)
    ensures
        result == page_total(pages, page_bytes),
{
    match (pages, page_bytes) {
        (Some(count), Some(size)) => count.checked_mul(size),
        _ => None,
    }
}

/// What became of an entry of the process directory.
enum Found<'a> {
    Passed,
    Unreadable,
    Read { pid: u32, stat: ProcessStat, files: &'a ProcessFiles },
}

fn look_at<'a>(entry: &'a Entry) -> (result: Found<'a>)
    ensures
        match result {
            Found::Passed => outcome(entry@) == Outcome::Passed,
            Found::Unreadable => outcome(entry@) == Outcome::Unreadable,
            Found::Read { pid, stat, files } => outcome(entry@) == (Outcome::Read {
                pid,
                stat: stat@,
                files: files@,
            }),
        },
        entry@ matches EntryView::Listed(shown) ==> match pid_named(shown.directory) {
            None => true,
            Some(pid) => {
                &&& stat_reads_utf8(shown.stat)
                &&& stat_read(shown.stat, pid) is Ok ==> stat_reads_utf8(shown.stat_again)
            },
        },
{
    let files: &ProcessFiles = match entry {
        Entry::Failed => {
            return Found::Unreadable;
        },
        Entry::Listed(files) => files,
    };
    let pid: u32 = match &files.directory {
        Some(name) => match parse_pid_directory(name.as_str()) {
            Some(pid) => pid,
            None => {
                return Found::Passed;
            },
        },
        None => {
            return Found::Passed;
        },
    };
    let initial: ProcessStat = match read_stat(&files.stat, pid) {
        Ok(stat) => stat,
        Err(failure) => {
            return if process_disappeared(&failure) {
                Found::Passed
            } else {
                Found::Unreadable
            };
        },
    };
    match read_stat(&files.stat_again, pid) {
        Ok(stat) => if stat.start_time_ticks == initial.start_time_ticks {
            Found::Read { pid, stat, files }
        } else {
            Found::Passed
        },
        Err(failure) => if process_disappeared(&failure) {
            Found::Passed
        } else {
            Found::Unreadable
        },
    }
}

impl ProcessCollector {
    /// A collector that has taken no sample yet. The tick rate and the page size
    /// are as the system gives them; what is not above zero is unknown.
    pub fn new(ticks: i64, page_bytes: i64, passwd: &Option<Vec<u8>>) -> (result: Self)
        ensures
            result.ticks_per_second == if ticks > 0 {
                Some(Double::integer(ticks as nat))
            } else {
                None
            },
            result.page_bytes == if page_bytes > 0 {
                Some(page_bytes as u64)
            } else {
                None
            },
            user_names(result.users@) == match optional_view(*passwd) {
                Some(bytes) => users_of(lines(lossy_text(bytes))),
                None => Map::empty(),
            },
            file_reads_utf8(optional_view(*passwd)),
            result.previous@ == Map::<u32, PreviousProcess>::empty(),
    {
        let users: HashMap<u32, String> = match passwd {
            Some(bytes) => {
                let text: String = decoded(bytes.as_slice());
                parse_users(text.as_str())
            },
            None => {
                let none: HashMap<u32, String> = HashMap::new();
                assert(user_names(none@) =~= Map::empty());
                none
            },
        };
        ProcessCollector {
            ticks_per_second: if ticks > 0 {
                Some(Double::from_integer(ticks as u128))
            } else {
                None
            },
            page_bytes: if page_bytes > 0 {
                Some(page_bytes as u64)
            } else {
                None
            },
            users,
            previous: HashMap::new(),
        }
    }

    /// What a sample takes from the collector and from the rest of the system.
    pub open spec fn around(self, uptime: Option<Double>, total_memory_bytes: u64)
        -> Circumstances {
        Circumstances {
            ticks_per_second: self.ticks_per_second,
            page_bytes: self.page_bytes,
            users: user_names(self.users@),
            previous: self.previous@,
            uptime,
            total_memory_bytes,
        }
    }

    fn user_name(&self, uid: Option<u32>) -> (result: String)
        ensures
            result@ == user_of(uid, user_names(self.users@)),
    {
        broadcast use vstd::std_specs::hash::group_hash_axioms;

        match uid {
            Some(number) => match self.users.get(&number) {
                Some(name) => name.clone(),
                None => {
                    let mut shown: String = String::new();
                    push_decimal(&mut shown, number as u64);
                    assert(shown@ =~= decimal(number as nat));
                    shown
                },
            },
            None => "Unavailable".to_owned(),
        }
    }

    fn measure(
        &self,
        pid: u32,
        stat: &ProcessStat,
        files: &ProcessFiles,
        uptime: Option<Double>,
        total_memory_bytes: u64,
    ) -> (result: (Process, bool))
        ensures
            result.0@ == self.around(uptime, total_memory_bytes).process(pid, stat@, files@),
            result.1 == self.around(uptime, total_memory_bytes).incomplete(stat@, files@),
            file_reads_utf8(files@.status),
            file_reads_utf8(files@.statm),
            command_reads_utf8(files@.cmdline),
    {
        broadcast use vstd::std_specs::hash::group_hash_axioms;

        let uid: Option<u32> = read_uid(&files.status);
        let pages: Option<u64> = read_shared_pages(&files.statm);
        let resident_bytes: Option<u64> = bytes_of_pages(stat.resident_pages, self.page_bytes);
        let shared_bytes: Option<u64> = bytes_of_pages(pages, self.page_bytes);
        let incomplete: bool = uid.is_none() || pages.is_none() || files.cmdline.is_none()
            || stat.virtual_bytes.is_none() || stat.resident_pages.is_none() || (
        self.page_bytes.is_some() && (resident_bytes.is_none() || shared_bytes.is_none()));
        let share: Option<Double> = match (self.previous.get(&pid), self.ticks_per_second) {
            (Some(before), Some(ticks)) => cpu_percent(*before, stat, files.sampled_at, ticks),
            _ => None,
        };
        let memory_percent: Option<Double> = match resident_bytes {
            Some(bytes) => if total_memory_bytes > 0 {
                Some(
                    Double::from_integer(bytes as u128).div(
                        Double::from_integer(total_memory_bytes as u128),
                    ).mul(Double::from_integer(100)),
                )
            } else {
                None
            },
            None => None,
        };
        let cpu_time_secs: Double = match self.ticks_per_second {
            Some(ticks) => Double::from_integer(stat.cpu_ticks as u128).div(ticks),
            None => Double::from_bits(NO_NUMBER),
        };
        let elapsed_secs: Option<Double> = match (uptime, self.ticks_per_second) {
            (Some(seconds), Some(ticks)) => Some(
                seconds.sub(Double::from_integer(stat.start_time_ticks as u128).div(ticks)).max(
                    Double::from_bits(0),
                ),
            ),
            _ => None,
        };
        let name: String = sanitize(stat.name.as_str());
        let command: String = format_command(
            match &files.cmdline {
                Some(bytes) => Some(bytes.as_slice()),
                None => None,
            },
            name.as_str(),
        );
        let process: Process = Process {
            pid,
            ppid: stat.ppid,
            uid,
            user: self.user_name(uid),
            state: stat.state,
            priority: stat.priority,
            nice: stat.nice,
            threads: stat.threads,
            virtual_bytes: stat.virtual_bytes,
            resident_bytes,
            shared_bytes,
            cpu_percent: share,
            memory_percent,
            cpu_time_secs,
            elapsed_secs,
            name,
            command,
            start_time_ticks: stat.start_time_ticks,
        };
        (process, incomplete)
    }

    /// Takes a sample of the processes.
    pub fn sample(&mut self, total_memory_bytes: u64, readings: &ProcessReadings) -> (result:
        ProcessSnapshot)
        ensures
            ({
                let around = old(self).around(
                    uptime_read(optional_view(readings.uptime)),
                    total_memory_bytes,
                );
                &&& views(result.processes@) == match readings.shown() {
                    Some(entries) => processes_of(entries, around),
                    None => Seq::empty(),
                }
                &&& views(result.warnings@) == process_notices(readings.shown(), around)
            }),
            final(self).previous@ == match readings.shown() {
                Some(entries) => process_baselines(entries),
                None => Map::empty(),
            },
            final(self).ticks_per_second == old(self).ticks_per_second,
            final(self).page_bytes == old(self).page_bytes,
            final(self).users == old(self).users,
            file_reads_utf8(optional_view(readings.uptime)),
            match readings.shown() {
                Some(entries) => forall|i: int|
                    0 <= i < entries.len() ==> entry_reads_utf8(#[trigger] entries[i]),
                None => true,
            },
    {
        let uptime: Option<Double> = read_uptime(&readings.uptime);
        let ghost around = self.around(uptime, total_memory_bytes);
        let mut warnings: Vec<String> = Vec::new();
        assert(views(warnings@) =~= Seq::<Seq<char>>::empty());
        if self.ticks_per_second.is_none() {
            warn(
                &mut warnings,
                "The system clock tick rate is unavailable; process CPU times and rates cannot be measured.".to_owned(),
            );
        }
        if self.page_bytes.is_none() {
            warn(
                &mut warnings,
                "The system page size is unavailable; process resident and shared memory cannot be measured.".to_owned(),
            );
        }
        if uptime.is_none() {
            warn(
                &mut warnings,
                "System uptime is unavailable; process elapsed times cannot be measured.".to_owned(),
            );
        }
        let ghost start = views(warnings@);
        let mut processes: Vec<Process> = Vec::new();
        let entries: &Vec<Entry> = match &readings.entries {
            Some(entries) => entries,
            None => {
                self.previous = HashMap::new();
                warn(
                    &mut warnings,
                    "Processes are unavailable because the process directory cannot be read.".to_owned(),
                );
                assert(views(warnings@) =~= process_notices(readings.shown(), around));
                assert(views(processes@) =~= Seq::<ProcessData>::empty());
                return ProcessSnapshot { processes, warnings };
            },
        };
        let ghost all = views(entries@);
        let mut previous: HashMap<u32, PreviousProcess> = HashMap::new();
        let mut unreadable: u64 = 0;
        let mut incomplete: u64 = 0;
        let mut i: usize = 0;
        assert(views(processes@) =~= processes_of(all.take(0), around));
        while i < entries.len()
            invariant
                i <= entries@.len(),
                all == views(entries@),
                *self == *old(self),
                around == self.around(uptime, total_memory_bytes),
                views(processes@) == processes_of(all.take(i as int), around),
                previous@ == process_baselines(all.take(i as int)),
                unreadable == unreadable_entries(all.take(i as int)),
                incomplete == incomplete_entries(all.take(i as int), around),
                unreadable <= i,
                incomplete <= i,
                forall|k: int| 0 <= k < i ==> entry_reads_utf8(#[trigger] all[k]),
            decreases entries@.len() - i,
        {
            broadcast use vstd::std_specs::hash::group_hash_axioms;

            assert(all[i as int] == entries@[i as int]@);
            assert(all.take(i + 1).drop_last() =~= all.take(i as int));
            match look_at(&entries[i]) {
                Found::Passed => {},
                Found::Unreadable => {
                    unreadable += 1;
                },
                Found::Read { pid, stat, files } => {
                    let (process, lacking) = self.measure(
                        pid,
                        &stat,
                        files,
                        uptime,
                        total_memory_bytes,
                    );
                    if lacking {
                        incomplete += 1;
                    }
                    previous.insert(
                        pid,
                        PreviousProcess {
                            start_time_ticks: stat.start_time_ticks,
                            cpu_ticks: stat.cpu_ticks,
                            sampled_at: files.sampled_at,
                        },
                    );
                    proof {
                        lemma_views_push(processes@, process);
                    }
                    processes.push(process);
                },
            }
            i += 1;
        }
        assert(all.take(i as int) =~= all);
        self.previous = previous;
        if unreadable > 0 {
            let mut notice: String = String::new();
            push_decimal(&mut notice, unreadable);
            notice.append(
                " process entries could not be read. Permissions or procfs restrictions may limit the list.",
            );
            warn(&mut warnings, notice);
        }
        if incomplete > 0 {
            let mut notice: String = String::new();
            push_decimal(&mut notice, incomplete);
            notice.append(
                " processes have incomplete details; unavailable values are shown as unavailable.",
            );
            warn(&mut warnings, notice);
        }
        assert(views(warnings@) =~= process_notices(readings.shown(), around));
        ProcessSnapshot { processes, warnings }
    }
}

// ---------------------------------------------------------------------------
// Laws
// ---------------------------------------------------------------------------

/// The next sample starts from the processes of this one, and from no others.
pub proof fn lemma_baselines_are_of_the_sample(
    entries: Seq<EntryView>,
    around: Circumstances,
    pid: u32,
)
    ensures
        process_baselines(entries).contains_key(pid) <==> exists|i: int|
            0 <= i < processes_of(entries, around).len() && (#[trigger] processes_of(
                entries,
                around,
            )[i]).pid == pid,
    decreases entries.len(),
{
    if entries.len() > 0 {
        let rest = entries.drop_last();
        let before = processes_of(rest, around);
        let all = processes_of(entries, around);
        lemma_baselines_are_of_the_sample(rest, around, pid);
        if let Outcome::Read { pid: last, stat, files } = outcome(entries.last()) {
            assert(all[before.len() as int].pid == last);
            if exists|i: int| 0 <= i < before.len() && (#[trigger] before[i]).pid == pid {
                let i = choose|i: int| 0 <= i < before.len() && (#[trigger] before[i]).pid == pid;
                assert(all[i].pid == pid);
            }
            if exists|i: int| 0 <= i < all.len() && (#[trigger] all[i]).pid == pid {
                let i = choose|i: int| 0 <= i < all.len() && (#[trigger] all[i]).pid == pid;
                if i < before.len() {
                    assert(before[i].pid == pid);
                }
            }
        }
    }
}

/// A process has no CPU share where its number belonged to another process at the
/// last sample, or to none.
pub proof fn lemma_reused_number_has_no_share(
    around: Circumstances,
    pid: u32,
    stat: StatView,
    files: ProcessFilesView,
)
    requires
        !around.previous.contains_key(pid) || around.previous[pid].start_time_ticks
            != stat.start_time_ticks,
    ensures
        around.process(pid, stat, files).cpu_percent is None,
{
}

/// Between two readings of a process its CPU share is known exactly where it is the same
/// process, time has passed and the counter has not moved back. It is the time used over the
/// time passed, in percent of one CPU, and nothing bounds it from above.
pub proof fn lemma_share_is_known(
    previous: PreviousProcess,
    start_time_ticks: u64,
    cpu_ticks: u64,
    sampled_at: u64,
    hz: u64,
)
    requires
        hz > 0,
    ensures
        ({
            let share = cpu_share(
                previous,
                start_time_ticks,
                cpu_ticks,
                sampled_at,
                Double::integer(hz as nat),
            );
            let known = previous.start_time_ticks == start_time_ticks && previous.sampled_at
                < sampled_at && previous.cpu_ticks <= cpu_ticks;
            &&& share is Some <==> known
            &&& known ==> share == Some(
                Double::integer((cpu_ticks - previous.cpu_ticks) as nat).quotient(
                    Double::integer(hz as nat),
                ).quotient(
                    Double::seconds((sampled_at - previous.sampled_at) as nat),
                ).product(Double::integer(100)),
            )
        }),
{
    let rate = Double::integer(hz as nat);
    lemma_powers();
    lemma2_to64();
    lemma_integer_between(hz as nat, 0, 64);
    lemma_integers(hz as nat, hz as nat);
    if previous.sampled_at == sampled_at {
        lemma_no_seconds();
    } else if previous.sampled_at < sampled_at && previous.cpu_ticks <= cpu_ticks {
        let passed = (sampled_at - previous.sampled_at) as nat;
        let used = (cpu_ticks - previous.cpu_ticks) as nat;
        let seconds = Double::integer(used).quotient(rate);
        lemma_seconds(passed);
        lemma_integer_between(used, 0, 64);
        lemma_integer_between(100, 0, 7);
        lemma_quotient_at_most(Double::integer(used), rate, 1138, 1074, 1138);
        lemma_quotient_at_most(seconds, Double::seconds(passed), 1138, 1044, 1168);
        lemma_product_at_most(
            seconds.quotient(Double::seconds(passed)),
            Double::integer(100),
            1168,
            1081,
            1175,
        );
    }
}

/// What the next sample starts from is the last reading of each process.
pub proof fn lemma_baseline_is_the_last_reading(entries: Seq<EntryView>, k: int)
    requires
        0 <= k < entries.len(),
        outcome(entries[k]) is Read,
        forall|l: int|
            k < l < entries.len() ==> !reads_process(
                #[trigger] entries[l],
                outcome(entries[k])->pid,
            ),
    ensures
        ({
            let pid = outcome(entries[k])->pid;
            &&& process_baselines(entries).contains_key(pid)
            &&& process_baselines(entries)[pid] == baseline_of(entries[k])
        }),
    decreases entries.len(),
{
    if k < entries.len() - 1 {
        let rest = entries.drop_last();
        assert(rest[k] == entries[k]);
        assert forall|l: int| k < l < rest.len() implies !reads_process(
            #[trigger] rest[l],
            outcome(rest[k])->pid,
        ) by {
            assert(rest[l] == entries[l]);
        }
        lemma_baseline_is_the_last_reading(rest, k);
        assert(!reads_process(entries[entries.len() - 1], outcome(entries[k])->pid));
    }
}

/// Whether an entry is that of a process with a number.
pub open spec fn reads_process(entry: EntryView, pid: u32) -> bool {
    outcome(entry) is Read && outcome(entry)->pid == pid
}

/// What the next sample starts from, where an entry is that of a process.
pub open spec fn baseline_of(entry: EntryView) -> PreviousProcess {
    PreviousProcess {
        start_time_ticks: outcome(entry)->stat.start_time_ticks,
        cpu_ticks: outcome(entry)->stat.cpu_ticks,
        sampled_at: outcome(entry)->files.sampled_at,
    }
}

/// In the second of two samples a process has a CPU share exactly where the tick rate is
/// known and the first sample has read the same process, earlier and with no more ticks.
pub proof fn lemma_share_between_samples(
    first: Seq<EntryView>,
    around: Circumstances,
    hz: Option<u64>,
    pid: u32,
    stat: StatView,
    files: ProcessFilesView,
)
    requires
        around.previous == process_baselines(first),
        match hz {
            Some(rate) => rate > 0 && around.ticks_per_second == Some(Double::integer(rate as nat)),
            None => around.ticks_per_second is None,
        },
    ensures
        ({
            let base = process_baselines(first);
            let share = around.process(pid, stat, files).cpu_percent;
            let known = {
                &&& hz is Some
                &&& base.contains_key(pid)
                &&& base[pid].start_time_ticks == stat.start_time_ticks
                &&& base[pid].cpu_ticks <= stat.cpu_ticks
                &&& base[pid].sampled_at < files.sampled_at
            };
            &&& share is Some <==> known
            &&& known ==> share == Some(
                Double::integer((stat.cpu_ticks - base[pid].cpu_ticks) as nat).quotient(
                    Double::integer(hz->0 as nat),
                ).quotient(
                    Double::seconds((files.sampled_at - base[pid].sampled_at) as nat),
                ).product(Double::integer(100)),
            )
        }),
{
    if let Some(rate) = hz {
        if process_baselines(first).contains_key(pid) {
            lemma_share_is_known(
                process_baselines(first)[pid],
                stat.start_time_ticks,
                stat.cpu_ticks,
                files.sampled_at,
                rate,
            );
        }
    }
}

/// Whether a text is fit to be shown as it is.
pub open spec fn is_harmless(s: Seq<char>) -> bool {
    forall|i: int| 0 <= i < s.len() ==> harmless(#[trigger] s[i]) == s[i]
}

proof fn lemma_spelled_out(args: Seq<Seq<u8>>)
    ensures
        is_harmless(spelled_out(args)),
    decreases args.len(),
{
    reveal_strlit("\"\"");
    reveal_strlit(" ");
    if args.len() > 1 {
        lemma_spelled_out(args.drop_last());
    }
}

/// What is shown of a process under its name and command changes neither the
/// display nor the direction of text.
pub proof fn lemma_shown_texts_are_harmless(
    around: Circumstances,
    pid: u32,
    stat: StatView,
    files: ProcessFilesView,
)
    ensures
        is_harmless(around.process(pid, stat, files).name),
        is_harmless(around.process(pid, stat, files).command),
{
    reveal_strlit("[");
    reveal_strlit("]");
    reveal_strlit(" …");
    if let Some(bytes) = files.cmdline {
        lemma_spelled_out(shown_arguments(bytes));
    }
}

/// The names of users are fit to be shown too.
pub proof fn lemma_users_are_harmless(rows: Seq<Seq<char>>, uid: u32)
    requires
        users_of(rows).contains_key(uid),
    ensures
        is_harmless(users_of(rows)[uid]),
    decreases rows.len(),
{
    let before = users_of(rows.drop_last());
    if before.contains_key(uid) {
        lemma_users_are_harmless(rows.drop_last(), uid);
    }
}

// ---------------------------------------------------------------------------
// What the figures of a process are made of
// ---------------------------------------------------------------------------

/// A `stat` gives the name between its parentheses, whatever stands in it, and each figure by
/// the column of its own: of CPU time what was used in user mode and in system mode together.
pub proof fn lemma_stat_columns(
    front: Seq<char>,
    name: Seq<char>,
    rest: Seq<char>,
    pid: u32,
    user: nat,
    system: nat,
)
    requires
        !front.contains('('),
        !rest.contains(')'),
        unsigned(trimmed(front), u32::MAX as nat) == Some(pid as nat),
        are_stat_fields(words(rest)),
        unsigned(words(rest)[11], u64::MAX as nat) == Some(user),
        unsigned(words(rest)[12], u64::MAX as nat) == Some(system),
    ensures
        match stat_of(front.push('(') + (name.push(')') + rest), pid) {
            Some(stat) => {
                let fields = words(rest);
                &&& stat.name == name
                &&& fields[0] == seq![stat.state]
                &&& unsigned(fields[1], u32::MAX as nat) == Some(stat.ppid as nat)
                &&& stat.cpu_ticks == user + system
                &&& signed(fields[15]) == Some(stat.priority as int)
                &&& signed(fields[16]) == Some(stat.nice as int)
                &&& unsigned(fields[17], u64::MAX as nat) == Some(stat.threads as nat)
                &&& unsigned(fields[19], u64::MAX as nat) == Some(stat.start_time_ticks as nat)
                &&& stat.virtual_bytes is Some <==> unsigned(fields[20], u64::MAX as nat) is Some
                &&& stat.virtual_bytes matches Some(bytes) ==> unsigned(fields[20], u64::MAX as nat)
                    == Some(bytes as nat)
                &&& stat.resident_pages is Some <==> signed(fields[21]) is Some && signed(
                    fields[21],
                )->0 >= 0
                &&& stat.resident_pages matches Some(pages) ==> signed(fields[21]) == Some(
                    pages as int,
                )
            },
            None => false,
        },
{
    let inner = name.push(')') + rest;
    let text = front.push('(') + inner;
    let fields = words(rest);
    lemma_first_index(front, '(', inner);
    let head = front.push('(') + name;
    assert(text =~= head.push(')') + rest);
    lemma_behind_last(head, ')', rest);
    assert(text.take(front.len() as int) =~= front);
    assert(text.skip(head.len() as int + 1) =~= rest);
    assert(text.subrange(front.len() as int + 1, head.len() as int) =~= name);
    assert(fields[0] =~= seq![fields[0][0]]);
}

/// The figures of a process count what its files count: bytes for pages, percent of all of
/// the memory, seconds for ticks, and the time that it has been there since its start.
pub proof fn lemma_figures_of_a_process(
    around: Circumstances,
    pid: u32,
    stat: StatView,
    files: ProcessFilesView,
    hz: u64,
)
    requires
        0 < hz < PRECISION,
        around.ticks_per_second == Some(Double::integer(hz as nat)),
    ensures
        ({
            let one = pow2(FINEST as nat);
            let process = around.process(pid, stat, files);
            let started = Double::integer(stat.start_time_ticks as nat).quotient(
                Double::integer(hz as nat),
            );
            &&& process.cpu_time_secs.finite()
            &&& differ_by(
                process.cpu_time_secs.value() * hz,
                (stat.cpu_ticks * one) as int,
                4 * (process.cpu_time_secs.value() + HIDDEN) * hz,
            )
            &&& started.finite()
            &&& differ_by(
                started.value() * hz,
                (stat.start_time_ticks * one) as int,
                4 * (started.value() + HIDDEN) * hz,
            )
            &&& process.elapsed_secs is Some <==> around.uptime is Some
            &&& around.uptime matches Some(uptime) ==> uptime.finite() && 0 <= uptime.value() ==> {
                let elapsed = process.elapsed_secs->0;
                &&& elapsed.finite()
                &&& started.value() <= uptime.value() ==> is_close(
                    elapsed.value(),
                    uptime.value() - started.value(),
                )
                &&& uptime.value() <= started.value() ==> elapsed.value() == 0
            }
        }),
{
    let hundred = Double::integer(hz as nat);
    let started = Double::integer(stat.start_time_ticks as nat).quotient(hundred);
    lemma_quotient_of_integers(stat.cpu_ticks as nat, hz as nat);
    lemma_quotient_of_integers(stat.start_time_ticks as nat, hz as nat);
    if let Some(uptime) = around.uptime {
        if uptime.finite() && 0 <= uptime.value() {
            lemma_time_since(uptime, started);
        }
    }
}

/// The time since a start is how much later it is, but for rounding, and none where the start
/// is still to come.
proof fn lemma_time_since(uptime: Double, started: Double)
    requires
        uptime.finite(),
        started.finite(),
        0 <= uptime.value(),
        0 <= started.value(),
    ensures
        ({
            let elapsed = uptime.difference(started).maximum(Double::zero());
            &&& elapsed.finite()
            &&& started.value() <= uptime.value() ==> is_close(
                elapsed.value(),
                uptime.value() - started.value(),
            )
            &&& uptime.value() <= started.value() ==> elapsed.value() == 0
        }),
{
    let d = uptime.difference(started);
    let exact = uptime.value() - started.value();
    let both = uptime.negative() && started.opposite().negative();
    assert(units(0) == 0);
    assert(uptime.value() + started.opposite().value() == exact);
    lemma_rounded_sum_grows(exact, uptime.value(), both, false);
    lemma_rounded_sum_grows(started.opposite().value(), exact, false, both);
    lemma_number_rounds_to_itself(uptime, false);
    lemma_number_rounds_to_itself(started.opposite(), false);
    assert(d.finite());
    lemma_difference_is_close(uptime, started);
    lemma_order_is_numeric(d, Double::zero());
    lemma_order_is_numeric(Double::zero(), d);
    if exact <= 0 {
        lemma_order_is_numeric(uptime, started);
        lemma_difference_not_positive(uptime, started);
        assert(d.value() <= 0);
        assert(d.maximum(Double::zero()).value() == 0 || d.value() < 0);
    } else {
        assert(d.value() >= 0);
    }
}

/// Bytes are so many pages of the system's size, where they can be counted.
pub proof fn lemma_bytes_are_pages(
    around: Circumstances,
    pid: u32,
    stat: StatView,
    files: ProcessFilesView,
    size: u64,
)
    requires
        around.page_bytes == Some(size),
    ensures
        ({
            let process = around.process(pid, stat, files);
            &&& stat.resident_pages matches Some(pages) ==> if pages * size <= u64::MAX {
                process.resident_bytes == Some((pages * size) as u64)
            } else {
                process.resident_bytes is None
            }
            &&& stat.resident_pages is None ==> process.resident_bytes is None
            &&& shared_pages(files.statm) matches Some(pages) ==> if pages * size <= u64::MAX {
                process.shared_bytes == Some((pages * size) as u64)
            } else {
                process.shared_bytes is None
            }
            &&& shared_pages(files.statm) is None ==> process.shared_bytes is None
            &&& process.virtual_bytes == stat.virtual_bytes
        }),
{
}

/// The share of memory of a process is that of what is resident of it, in percent.
pub proof fn lemma_share_of_memory(
    around: Circumstances,
    pid: u32,
    stat: StatView,
    files: ProcessFilesView,
    bytes: u64,
)
    requires
        around.process(pid, stat, files).resident_bytes == Some(bytes),
        bytes <= around.total_memory_bytes,
        around.total_memory_bytes > 0,
    ensures
        match around.process(pid, stat, files).memory_percent {
            Some(share) => is_percentage(share, bytes as nat, around.total_memory_bytes as nat),
            None => false,
        },
{
    lemma_percentage(bytes as nat, around.total_memory_bytes as nat);
}

/// The CPU share of a process is the time that its ticks take up of the time that has passed,
/// in percent and but for rounding.
pub proof fn lemma_share_is_the_time_used(
    previous: PreviousProcess,
    start_time_ticks: u64,
    cpu_ticks: u64,
    sampled_at: u64,
    hz: u64,
)
    requires
        0 < hz < PRECISION,
        previous.start_time_ticks == start_time_ticks,
        previous.sampled_at < sampled_at,
        previous.cpu_ticks <= cpu_ticks,
    ensures
        match cpu_share(
            previous,
            start_time_ticks,
            cpu_ticks,
            sampled_at,
            Double::integer(hz as nat),
        ) {
            Some(share) => is_load(
                share,
                (cpu_ticks - previous.cpu_ticks) as nat,
                hz as nat,
                (sampled_at - previous.sampled_at) as nat,
            ),
            None => false,
        },
{
    lemma_share_is_known(previous, start_time_ticks, cpu_ticks, sampled_at, hz);
    lemma_load(
        (cpu_ticks - previous.cpu_ticks) as nat,
        hz as nat,
        (sampled_at - previous.sampled_at) as nat,
    );
}

/// What a process is said to be is taken from its files, each from the one that tells it.
pub proof fn lemma_process_is_as_its_files_say(
    around: Circumstances,
    pid: u32,
    stat: StatView,
    files: ProcessFilesView,
    i: int,
)
    ensures
        ({
            let process = around.process(pid, stat, files);
            &&& process.pid == pid
            &&& process.ppid == stat.ppid
            &&& process.state == stat.state
            &&& process.priority == stat.priority
            &&& process.nice == stat.nice
            &&& process.threads == stat.threads
            &&& process.start_time_ticks == stat.start_time_ticks
            &&& process.name.len() == stat.name.len()
            &&& 0 <= i < stat.name.len() && '\u{20}' <= stat.name[i] <= '\u{7e}'
                ==> process.name[i] == stat.name[i]
            &&& process.uid matches Some(uid) ==> if around.users.contains_key(uid) {
                process.user == around.users[uid]
            } else {
                unsigned(process.user, u32::MAX as nat) == Some(uid as nat)
            }
        }),
{
    let process = around.process(pid, stat, files);
    if let Some(uid) = process.uid {
        lemma_decimal_reads_back(uid as nat, u32::MAX as nat);
    }
}

/// The arguments of a command line are parted by zeros.
pub proof fn lemma_arguments_are_parted(a: Seq<u8>, b: Seq<u8>)
    requires
        !a.contains(0),
    ensures
        arguments(a.push(0) + b) == seq![a] + arguments(b),
        arguments(a) == seq![a],
{
    let all = a.push(0) + b;
    lemma_first_zero_behind(a, b);
    assert(all.take(a.len() as int) =~= a);
    assert(all.skip(a.len() as int + 1) =~= b);
}

proof fn lemma_first_zero_behind(a: Seq<u8>, b: Seq<u8>)
    requires
        !a.contains(0),
    ensures
        first_zero(a.push(0) + b) == a.len(),
        first_zero(a) == a.len(),
    decreases a.len(),
{
    let all = a.push(0) + b;
    if a.len() > 0 {
        assert(a[0] != 0);
        assert forall|i: int| 0 <= i < a.skip(1).len() implies a.skip(1)[i] != 0 by {
            assert(a[i + 1] != 0);
        }
        assert(all.skip(1) =~= a.skip(1).push(0) + b);
        lemma_first_zero_behind(a.skip(1), b);
    }
}

/// A command line that fits is shown argument by argument, with a space between any two.
pub proof fn lemma_arguments_are_spelled_out(args: Seq<Seq<u8>>, i: int)
    requires
        0 < i < args.len(),
    ensures
        spelled_out(args) == spelled_out(args.take(i)) + " "@ + spelled_out(args.skip(i)),
    decreases args.len(),
{
    let front = args.drop_last();
    let last = args.last();
    if i == args.len() - 1 {
        assert(args.take(i) =~= front);
        assert(args.skip(i) =~= seq![last]);
    } else {
        lemma_arguments_are_spelled_out(front, i);
        assert(front.take(i) =~= args.take(i));
        assert(args.skip(i).drop_last() =~= front.skip(i));
        assert(args.skip(i).last() == last);
        assert(spelled_out(args) =~= spelled_out(args.take(i)) + " "@ + spelled_out(args.skip(i)));
    }
}

/// The effective user is the second number of the row that tells the users.
pub proof fn lemma_effective_user(rest: Seq<char>, uid: nat)
    requires
        words(rest).len() >= 2,
        unsigned(words(rest)[1], u32::MAX as nat) == Some(uid),
    ensures
        uid_row("Uid:"@ + rest) == Some(uid),
{
    let row = "Uid:"@ + rest;
    assert(row.take("Uid:"@.len() as int) =~= "Uid:"@);
    assert(row.skip("Uid:"@.len() as int) =~= rest);
}

/// Of rows of users with one number the first gives its name.
pub proof fn lemma_first_user_counts(rows: Seq<Seq<char>>, k: int, uid: u32, name: Seq<char>)
    requires
        0 <= k < rows.len(),
        user_row(rows[k]) == Some((uid, name)),
        forall|i: int|
            0 <= i < k ==> match user_row(#[trigger] rows[i]) {
                Some((other, _)) => other != uid,
                None => true,
            },
    ensures
        users_of(rows).contains_key(uid),
        users_of(rows)[uid] == name,
    decreases rows.len(),
{
    let rest = rows.drop_last();
    assert(forall|i: int| 0 <= i < rest.len() ==> rest[i] == #[trigger] rows[i]);
    if k < rest.len() {
        lemma_first_user_counts(rest, k, uid, name);
    } else {
        lemma_user_is_new(rest, uid);
    }
}

proof fn lemma_user_is_new(rows: Seq<Seq<char>>, uid: u32)
    requires
        forall|i: int|
            0 <= i < rows.len() ==> match user_row(#[trigger] rows[i]) {
                Some((other, _)) => other != uid,
                None => true,
            },
    ensures
        !users_of(rows).contains_key(uid),
    decreases rows.len(),
{
    if rows.len() > 0 {
        let rest = rows.drop_last();
        assert(rows[rows.len() - 1] == rows.last());
        assert(forall|i: int| 0 <= i < rest.len() ==> rest[i] == #[trigger] rows[i]);
        lemma_user_is_new(rest, uid);
    }
}

/// A row of users gives the number in the third column the name in the first.
pub proof fn lemma_user_columns(name: Seq<char>, second: Seq<char>, number: nat, rest: Seq<char>)
    requires
        name.len() > 0,
        !name.contains(':'),
        !second.contains(':'),
        number <= u32::MAX,
    ensures
        user_row(
            name.push(':') + (second.push(':') + (decimal(number).push(':') + rest)),
        ) == Some((number as u32, sanitized(name))),
{
    let third = decimal(number);
    lemma_decimal_counts(number);
    lemma_decimal_reads_back(number, u32::MAX as nat);
    assert(!third.contains(':')) by {
        assert forall|i: int| 0 <= i < third.len() implies third[i] != ':' by {
            assert(is_digit(third[i]));
        }
    }
    let behind = third.push(':') + rest;
    lemma_pieces_are_parted(third, ':', rest);
    lemma_pieces_are_parted(second, ':', behind);
    lemma_pieces_are_parted(name, ':', second.push(':') + behind);
}

/// Every process that was read is listed once, in the order of the entries, and nothing else
/// is listed.
pub proof fn lemma_processes_are_those_read(
    entries: Seq<EntryView>,
    entry: EntryView,
    around: Circumstances,
)
    ensures
        processes_of(Seq::empty(), around).len() == 0,
        match outcome(entry) {
            Outcome::Read { pid, stat, files } => processes_of(entries.push(entry), around)
                == processes_of(entries, around).push(around.process(pid, stat, files)),
            _ => processes_of(entries.push(entry), around) == processes_of(entries, around),
        },
{
    assert(entries.push(entry).drop_last() =~= entries);
}

// ---------------------------------------------------------------------------
// Numbers and notices
// ---------------------------------------------------------------------------

/// A directory is that of a process exactly where its name is a number that is not zero.
pub proof fn lemma_numbers_name_processes(n: nat, name: Seq<char>)
    ensures
        0 < n <= u32::MAX ==> pid_of(decimal(n)) == Some(n),
        n == 0 || n > u32::MAX ==> pid_of(decimal(n)) is None,
        (exists|i: int| 0 <= i < name.len() && !is_digit(#[trigger] name[i])) ==> pid_of(
            name,
        ) is None,
        pid_of(Seq::empty()) is None,
{
    lemma_decimal_counts(n);
}

/// The effective user is that of the first row that gives one.
pub proof fn lemma_first_effective_user_counts(rows: Seq<Seq<char>>, k: int)
    requires
        0 <= k < rows.len(),
        uid_row(rows[k]) is Some,
        forall|i: int| 0 <= i < k ==> uid_row(#[trigger] rows[i]) is None,
    ensures
        uid_of(rows) == uid_row(rows[k]),
    decreases rows.len(),
{
    let less = rows.drop_last();
    assert(forall|i: int| 0 <= i < less.len() ==> less[i] == #[trigger] rows[i]);
    if k < less.len() {
        lemma_first_effective_user_counts(less, k);
    } else {
        lemma_no_effective_user(less);
    }
}

/// Rows of which none gives a user give none.
pub proof fn lemma_no_effective_user(rows: Seq<Seq<char>>)
    requires
        forall|i: int| 0 <= i < rows.len() ==> uid_row(#[trigger] rows[i]) is None,
    ensures
        uid_of(rows) is None,
    decreases rows.len(),
{
    if rows.len() > 0 {
        let less = rows.drop_last();
        assert(forall|i: int| 0 <= i < less.len() ==> less[i] == #[trigger] rows[i]);
        assert(uid_row(rows[rows.len() - 1]) is None);
        lemma_no_effective_user(less);
    }
}

/// The time that the system is up is the first number of its file.
pub proof fn lemma_uptime_is_said_first(first: Seq<char>, rest: Seq<char>)
    requires
        first.len() > 0 && is_solid(first),
    ensures
        uptime_said(first.push(' ') + rest) == nonnegative(first),
        uptime_said(Seq::empty()) is None,
{
    lemma_words_are_parted(first, ' ', rest);
    lemma_one_word(first);
    assert(words(first.push(' ') + rest)[0] == first);
}

/// Empty arguments at the end are left out, and no others.
pub proof fn lemma_empty_arguments_at_the_end(args: Seq<Seq<u8>>, empty: nat)
    requires
        args.len() == 0 || args.last().len() > 0,
    ensures
        without_empty_end(args + Seq::new(empty, |i: int| Seq::<u8>::empty())) == args,
    decreases empty,
{
    let all = args + Seq::new(empty, |i: int| Seq::<u8>::empty());
    if empty > 0 {
        let less = (empty - 1) as nat;
        assert(all.last().len() == 0);
        assert(all.drop_last() =~= args + Seq::new(less, |i: int| Seq::<u8>::empty()));
        lemma_empty_arguments_at_the_end(args, less);
    } else {
        assert(all =~= args);
    }
}

/// An entry that cannot be read counts once, and one that says too little counts once; the
/// others do not count.
pub proof fn lemma_entries_are_counted(
    entries: Seq<EntryView>,
    entry: EntryView,
    around: Circumstances,
)
    ensures
        ({
            let more = entries.push(entry);
            &&& unreadable_entries(Seq::empty()) == 0
            &&& incomplete_entries(Seq::empty(), around) == 0
            &&& outcome(entry) is Unreadable ==> unreadable_entries(more) == unreadable_entries(
                entries,
            ) + 1
            &&& !(outcome(entry) is Unreadable) ==> unreadable_entries(more)
                == unreadable_entries(entries)
            &&& outcome(entry) is Read && around.incomplete(
                outcome(entry)->stat,
                outcome(entry)->files,
            ) ==> incomplete_entries(more, around) == incomplete_entries(entries, around) + 1
            &&& !(outcome(entry) is Read && around.incomplete(
                outcome(entry)->stat,
                outcome(entry)->files,
            )) ==> incomplete_entries(more, around) == incomplete_entries(entries, around)
        }),
{
    assert(entries.push(entry).drop_last() =~= entries);
}

/// What is missing of a process: its user, its arguments, or an amount of memory that can be
/// measured here.
pub proof fn lemma_which_details_are_incomplete(
    stat: StatView,
    files: ProcessFilesView,
    around: Circumstances,
)
    ensures
        uid_read(files.status) is None || files.cmdline is None || stat.virtual_bytes is None
            || stat.resident_pages is None || shared_pages(files.statm) is None
            ==> around.incomplete(stat, files),
        uid_read(files.status) is Some && files.cmdline is Some && stat.virtual_bytes is Some
            && stat.resident_pages is Some && shared_pages(files.statm) is Some
            && around.page_bytes is None ==> !around.incomplete(stat, files),
{
}

/// Nothing is said where the system tells its tick rate, its page size and how long it is up,
/// and where every process can be read in full; else each is told of once, and how many.
pub proof fn lemma_what_is_said_of_processes(
    entries: Seq<EntryView>,
    around: Circumstances,
)
    ensures
        ({
            let all = process_notices(Some(entries), around);
            let known = around.ticks_per_second is Some && around.page_bytes is Some
                && around.uptime is Some;
            let unreadable = unreadable_entries(entries);
            let incomplete = incomplete_entries(entries, around);
            &&& all.len() == (if around.ticks_per_second is None {
                1nat
            } else {
                0
            }) + (if around.page_bytes is None {
                1nat
            } else {
                0
            }) + (if around.uptime is None {
                1nat
            } else {
                0
            }) + (if unreadable > 0 {
                1nat
            } else {
                0
            }) + (if incomplete > 0 {
                1nat
            } else {
                0
            })
            &&& known && unreadable > 0 ==> begins(all[0], decimal(unreadable))
            &&& incomplete > 0 ==> begins(all.last(), decimal(incomplete))
            &&& known ==> process_notices(None, around).len() == 1
        }),
{
    let all = process_notices(Some(entries), around);
    let unreadable = unreadable_entries(entries);
    let incomplete = incomplete_entries(entries, around);
    let known = around.ticks_per_second is Some && around.page_bytes is Some
        && around.uptime is Some;
    if known && unreadable > 0 {
        assert(all[0].take(decimal(unreadable).len() as int) =~= decimal(unreadable));
    }
    if incomplete > 0 {
        assert(all.last().take(decimal(incomplete).len() as int) =~= decimal(incomplete));
    }
}

} // verus!
