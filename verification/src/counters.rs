//! The counters that procfs and sysfs show as text, and the rates between two
//! readings of them.

use crate::accuracy::{is_percentage, is_rate, lemma_percentage, lemma_rate_per_second};
use crate::arithmetic::{lemma_integers, lemma_share};
use crate::double::{lemma_order_is_numeric, lemma_units_increase, units, Double, FINEST};
use crate::magnitudes::{
    lemma_integer_between, lemma_no_seconds, lemma_quotient_at_most, lemma_seconds,
};
use crate::parsing::parsed;
use crate::readings::seconds_since;
use crate::rounding::{lemma_powers, lemma_rounded};
use crate::table::{
    in_order, inserted, lemma_inserted_in_order, lemma_inserted_lookup, lookup, Table,
};
use crate::text::{
    begins, behind_last, characters, copied, decimal, digits_value, is_digit,
    lemma_views_push, lines, once, optional_view, parse_u32, parse_u64, parse_usize, read_trimmed,
    rfind, rows_of, said, spells, split_lines, split_once, split_whitespace, starts_with, string_of,
    trim, trimmed, unsigned, views, words,
};
use crate::writing::{
    lemma_behind_last, lemma_decimal_counts, lemma_decimal_reads_back, lemma_no_separator,
    lemma_parted_once,
};
use std::collections::BTreeMap;
use vstd::arithmetic::power2::{lemma2_to64, pow2};
use vstd::prelude::*;
use vstd::slice::slice_subrange;

verus! {

// ---------------------------------------------------------------------------
// Numbers
// ---------------------------------------------------------------------------

/// The finite number, not below zero, that a text writes.
pub open spec fn nonnegative(s: Seq<char>) -> Option<Double> {
    match parsed(s) {
        Some(value) => if value.finite() && Double::zero().at_most(value) {
            Some(value)
        } else {
            None
        },
        None => None,
    }
}

/// The finite number above zero that a text writes.
pub open spec fn positive(s: Seq<char>) -> Option<Double> {
    match nonnegative(s) {
        Some(value) => if Double::zero().less(value) {
            Some(value)
        } else {
            None
        },
        None => None,
    }
}

pub fn parse_nonnegative(s: &[char]) -> (result: Option<Double>)
    ensures
        result == nonnegative(s@),
{
    match Double::parse(s) {
        Some(value) => if value.is_finite() && Double::from_bits(0).is_at_most(value) {
            Some(value)
        } else {
            None
        },
        None => None,
    }
}

pub fn parse_positive(s: &[char]) -> (result: Option<Double>)
    ensures
        result == positive(s@),
{
    match parse_nonnegative(s) {
        Some(value) => if Double::from_bits(0).is_less(value) {
            Some(value)
        } else {
            None
        },
        None => None,
    }
}

// ---------------------------------------------------------------------------
// CPU times
// ---------------------------------------------------------------------------

/// Clock ticks that a CPU has spent: in user mode, in niced processes, in system
/// mode, idle, waiting for I/O, in interrupts, in soft interrupts, and stolen.
#[derive(Clone, Copy, Debug)]
pub struct CpuTimes(pub [u64; 8]);

/// The number of the CPU that a name such as `cpu3` gives.
pub open spec fn cpu_number(name: Seq<char>) -> Option<nat> {
    if begins(name, "cpu"@) {
        unsigned(name.skip("cpu"@.len() as int), usize::MAX as nat)
    } else {
        None
    }
}

/// A column of a row of counters; zero where there is none.
pub open spec fn column(fields: Seq<Seq<char>>, i: int) -> u64 {
    if i < fields.len() {
        match unsigned(fields[i], u64::MAX as nat) {
            Some(value) => value as u64,
            None => 0,
        }
    } else {
        0
    }
}

/// What a row says of a CPU: its name and at least four counters. The two
/// columns of guest time, behind the first eight, are part of the user times.
pub open spec fn cpu_row(row: Seq<char>) -> Option<(Seq<char>, CpuTimes)> {
    let fields = words(row);
    if fields.len() < 5 {
        None
    } else if fields[0] != "cpu"@ && cpu_number(fields[0]) is None {
        None
    } else if exists|i: int|
        1 <= i < 9 && i < fields.len() && unsigned(
            #[trigger] fields[i],
            u64::MAX as nat,
        ) is None {
        None
    } else {
        Some(
            (
                fields[0],
                CpuTimes(
                    [
                        column(fields, 1),
                        column(fields, 2),
                        column(fields, 3),
                        column(fields, 4),
                        column(fields, 5),
                        column(fields, 6),
                        column(fields, 7),
                        column(fields, 8),
                    ],
                ),
            ),
        )
    }
}

/// What rows say of the CPUs, by name; of two rows with one name the later counts.
pub open spec fn cpu_times(rows: Seq<Seq<char>>) -> Seq<(Seq<char>, CpuTimes)>
    decreases rows.len(),
{
    if rows.len() == 0 {
        Seq::empty()
    } else {
        match cpu_row(rows.last()) {
            Some((name, times)) => inserted(cpu_times(rows.drop_last()), name, times),
            None => cpu_times(rows.drop_last()),
        }
    }
}

/// The number of the CPU that a name such as `cpu3` gives.
pub fn parse_cpu_number(name: &[char]) -> (result: Option<usize>)
    ensures
        result matches Some(id) ==> cpu_number(name@) == Some(id as nat),
        result is None ==> cpu_number(name@) is None,
{
    let prefix: Vec<char> = characters("cpu");
    if starts_with(name, prefix.as_slice()) {
        let id: &[char] = slice_subrange(name, prefix.len(), name.len());
        assert(id@ =~= name@.skip("cpu"@.len() as int));
        parse_usize(id)
    } else {
        None
    }
}

fn parse_cpu_row(row: &[char]) -> (result: Option<(String, CpuTimes)>)
    ensures
        result is None <==> cpu_row(row@) is None,
        result matches Some((name, times)) ==> cpu_row(row@) == Some((name@, times)),
{
    let fields: Vec<Vec<char>> = split_whitespace(row);
    let ghost shown = words(row@);
    assert(fields@.len() == shown.len());
    assert forall|i: int| 0 <= i < shown.len() implies shown[i] == (#[trigger] fields@[i])@ by {}
    if fields.len() < 5 {
        return None;
    }
    assert(fields@[0]@ == shown[0]);
    if !spells(fields[0].as_slice(), "cpu") && parse_cpu_number(fields[0].as_slice()).is_none() {
        return None;
    }
    let mut counters: [u64; 8] = [0, 0, 0, 0, 0, 0, 0, 0];
    let mut i: usize = 1;
    while i < 9 && i < fields.len()
        invariant
            1 <= i <= 9,
            i <= fields@.len(),
            shown == words(row@),
            shown == views(fields@),
            forall|k: int|
                1 <= k < i ==> unsigned(#[trigger] shown[k], u64::MAX as nat) is Some,
            forall|k: int| 1 <= k < i ==> counters@[k - 1] == #[trigger] column(shown, k),
            forall|k: int| i <= k < 9 ==> #[trigger] counters@[k - 1] == 0,
            shown.len() >= 5,
            shown[0] == "cpu"@ || cpu_number(shown[0]) is Some,
        decreases 9 - i,
    {
        assert(fields@[i as int]@ == shown[i as int]);
        match parse_u64(fields[i].as_slice()) {
            Some(value) => {
                counters[i - 1] = value;
                assert(column(shown, i as int) == value);
            },
            None => {
                return None;
            },
        }
        i += 1;
    }
    assert(forall|k: int| 1 <= k < 9 ==> counters@[k - 1] == #[trigger] column(shown, k)) by {
        assert forall|k: int| 1 <= k < 9 implies counters@[k - 1] == #[trigger] column(
            shown,
            k,
        ) by {
            if k >= i {
                assert(counters@[k - 1] == 0);
            }
        }
    }
    let ghost expected = [
        column(shown, 1),
        column(shown, 2),
        column(shown, 3),
        column(shown, 4),
        column(shown, 5),
        column(shown, 6),
        column(shown, 7),
        column(shown, 8),
    ];
    assert(counters =~= expected) by {
        assert forall|j: int| 0 <= j < 8 implies counters[j] == expected[j] by {
            assert(counters@[(j + 1) - 1] == column(shown, j + 1));
        }
    }
    Some((string_of(fields[0].as_slice()), CpuTimes(counters)))
}

/// Reads `/proc/stat`: what it says of the CPUs, by name.
pub fn parse_cpu_times(text: &str) -> (result: Table<CpuTimes>)
    ensures
        result@ == cpu_times(lines(text@)),
{
    let rows: Vec<Vec<char>> = rows_of(text);
    let ghost all = lines(text@);
    let mut result: Table<CpuTimes> = Table::new();
    let mut i: usize = 0;
    while i < rows.len()
        invariant
            i <= rows@.len(),
            views(rows@) == all,
            all.len() == rows@.len(),
            result@ == cpu_times(all.take(i as int)),
        decreases rows@.len() - i,
    {
        assert(all[i as int] == rows@[i as int]@);
        assert(all.take(i + 1).drop_last() =~= all.take(i as int));
        match parse_cpu_row(rows[i].as_slice()) {
            Some((name, times)) => {
                result.insert(name, times);
            },
            None => {},
        }
        i += 1;
    }
    assert(all.take(i as int) =~= all);
    result
}

/// How far a counter has moved on; not at all where it moved back.
pub open spec fn advance(previous: CpuTimes, current: CpuTimes, i: int) -> nat {
    if current.0[i] >= previous.0[i] {
        (current.0[i] - previous.0[i]) as nat
    } else {
        0
    }
}

/// The ticks between two readings.
pub open spec fn elapsed_ticks(previous: CpuTimes, current: CpuTimes) -> nat {
    advance(previous, current, 0) + advance(previous, current, 1) + advance(previous, current, 2)
        + advance(previous, current, 3) + advance(previous, current, 4) + advance(
        previous,
        current,
        5,
    ) + advance(previous, current, 6) + advance(previous, current, 7)
}

/// The ticks between two readings that were idle or waiting for I/O.
pub open spec fn idle_ticks(previous: CpuTimes, current: CpuTimes) -> nat {
    advance(previous, current, 3) + advance(previous, current, 4)
}

/// The share of the ticks between two readings that were not idle. There is none
/// where no tick has passed, or where a counter other than that of waiting for
/// I/O has moved back.
pub open spec fn busy_share(previous: CpuTimes, current: CpuTimes) -> Option<Double> {
    let total = elapsed_ticks(previous, current);
    let busy = (total - idle_ticks(previous, current)) as nat;
    if exists|i: int| 0 <= i < 8 && i != 4 && (#[trigger] current.0[i]) < previous.0[i] {
        None
    } else if total == 0 {
        None
    } else {
        Some(
            Double::integer(busy).quotient(Double::integer(total)).product(
                Double::integer(100),
            ).clamped(Double::zero(), Double::integer(100)),
        )
    }
}

/// The share of the time between two readings that a CPU was busy, in percent.
pub fn cpu_percent(previous: CpuTimes, current: CpuTimes) -> (result: Option<Double>)
    ensures
        result == busy_share(previous, current),
{
    let mut delta: [u64; 8] = [0, 0, 0, 0, 0, 0, 0, 0];
    let mut i: usize = 0;
    while i < 8
        invariant
            i <= 8,
            forall|k: int| 0 <= k < i ==> #[trigger] delta@[k] == advance(previous, current, k),
            forall|k: int|
                0 <= k < i && k != 4 ==> (#[trigger] current.0[k]) >= previous.0[k],
        decreases 8 - i,
    {
        if current.0[i] < previous.0[i] {
            if i != 4 {
                assert(current.0[i as int] < previous.0[i as int]);
                return None;
            }
            delta[i] = 0;
        } else {
            delta[i] = current.0[i] - previous.0[i];
        }
        i += 1;
    }
    assert(delta@[0] == advance(previous, current, 0));
    assert(delta@[1] == advance(previous, current, 1));
    assert(delta@[2] == advance(previous, current, 2));
    assert(delta@[3] == advance(previous, current, 3));
    assert(delta@[4] == advance(previous, current, 4));
    assert(delta@[5] == advance(previous, current, 5));
    assert(delta@[6] == advance(previous, current, 6));
    assert(delta@[7] == advance(previous, current, 7));
    let idle: u128 = delta[3] as u128 + delta[4] as u128;
    let total: u128 = delta[0] as u128 + delta[1] as u128 + delta[2] as u128 + idle + delta[5] as u128
        + delta[6] as u128 + delta[7] as u128;
    if total == 0 {
        return None;
    }
    let share: Double = Double::from_integer(total - idle).div(Double::from_integer(total));
    let hundred: Double = Double::from_integer(100);
    Some(share.mul(hundred).clamp(Double::from_bits(0), hundred))
}

/// A share of busy time is a number from 0 to 100.
pub proof fn lemma_busy_share_is_a_percentage(previous: CpuTimes, current: CpuTimes)
    ensures
        match busy_share(previous, current) {
            Some(share) => share.finite() && Double::zero().at_most(share) && share.at_most(
                Double::integer(100),
            ),
            None => true,
        },
{
    let total = elapsed_ticks(previous, current);
    let busy = (total - idle_ticks(previous, current)) as nat;
    if busy_share(previous, current) is Some {
        lemma_share(busy, total);
    }
}

// ---------------------------------------------------------------------------
// CPU models and clocks
// ---------------------------------------------------------------------------

/// The place of the first empty line of a text: of two line feeds in a row. The
/// length where there is none.
pub open spec fn first_gap(s: Seq<char>) -> nat
    decreases s.len(),
{
    if s.len() < 2 {
        s.len()
    } else if s[0] == '\n' && s[1] == '\n' {
        0
    } else {
        1 + first_gap(s.skip(1))
    }
}

/// The blocks of a text between its empty lines.
pub open spec fn blocks(s: Seq<char>) -> Seq<Seq<char>>
    decreases s.len(),
{
    let end = first_gap(s);
    if end + 2 > s.len() {
        seq![s]
    } else {
        seq![s.take(end as int)] + blocks(s.skip(end as int + 2))
    }
}

/// The key and the value of a row, without white space around them.
pub open spec fn key_value(row: Seq<char>) -> Option<(Seq<char>, Seq<char>)> {
    match once(row, ':') {
        Some((key, value)) => Some((trimmed(key), trimmed(value))),
        None => None,
    }
}

/// The value of the last row with this key.
pub open spec fn last_value(rows: Seq<Seq<char>>, key: Seq<char>) -> Option<Seq<char>>
    decreases rows.len(),
{
    if rows.len() == 0 {
        None
    } else {
        match key_value(rows.last()) {
            Some((found, value)) => if found == key {
                Some(value)
            } else {
                last_value(rows.drop_last(), key)
            },
            None => last_value(rows.drop_last(), key),
        }
    }
}

/// Whether a key names the model of the processor.
pub open spec fn names_model(key: Seq<char>) -> bool {
    key == "model name"@ || key == "Hardware"@ || key == "Processor"@
}

/// The first model that the rows name.
pub open spec fn first_model(rows: Seq<Seq<char>>) -> Option<Seq<char>>
    decreases rows.len(),
{
    if rows.len() == 0 {
        None
    } else {
        match first_model(rows.drop_last()) {
            Some(model) => Some(model),
            None => match key_value(rows.last()) {
                Some((key, value)) => if names_model(key) {
                    Some(value)
                } else {
                    None
                },
                None => None,
            },
        }
    }
}

/// The number that a value gives a CPU.
pub open spec fn cpu_id(value: Option<Seq<char>>) -> Option<nat> {
    match value {
        Some(text) => unsigned(text, usize::MAX as nat),
        None => None,
    }
}

/// The clock that a value gives a CPU.
pub open spec fn clock(value: Option<Seq<char>>) -> Option<Double> {
    match value {
        Some(text) => positive(text),
        None => None,
    }
}

/// The first model that the blocks name.
pub open spec fn model_of(parts: Seq<Seq<char>>) -> Option<Seq<char>>
    decreases parts.len(),
{
    if parts.len() == 0 {
        None
    } else {
        match model_of(parts.drop_last()) {
            Some(model) => Some(model),
            None => first_model(lines(parts.last())),
        }
    }
}

/// The clock of each CPU whose block gives both its number and its clock.
pub open spec fn clocks_of(parts: Seq<Seq<char>>) -> Map<usize, Double>
    decreases parts.len(),
{
    if parts.len() == 0 {
        Map::empty()
    } else {
        let before = clocks_of(parts.drop_last());
        let rows = lines(parts.last());
        match (
            cpu_id(last_value(rows, "processor"@)),
            clock(last_value(rows, "cpu MHz"@)),
        ) {
            (Some(id), Some(frequency)) => before.insert(id as usize, frequency),
            _ => before,
        }
    }
}

fn find_gap(s: &[char], start: usize) -> (result: usize)
    requires
        start <= s@.len(),
    ensures
        start <= result <= s@.len(),
        result - start == first_gap(s@.skip(start as int)),
{
    let mut i: usize = start;
    while i < s.len() && s.len() - i >= 2
        invariant
            start <= i <= s@.len(),
            first_gap(s@.skip(start as int)) == (i - start) + first_gap(s@.skip(i as int)),
        decreases s@.len() - i,
    {
        if s[i] == '\n' && s[i + 1] == '\n' {
            return i;
        }
        assert(s@.skip(i as int).skip(1) =~= s@.skip(i + 1));
        i += 1;
    }
    s.len()
}

fn split_blocks(s: &[char]) -> (result: Vec<Vec<char>>)
    ensures
        views(result@) == blocks(s@),
{
    let mut result: Vec<Vec<char>> = Vec::new();
    let mut i: usize = 0;
    assert(s@.skip(0) == s@);
    assert(views(result@) + blocks(s@) =~= blocks(s@));
    loop
        invariant_except_break
            i <= s@.len(),
            blocks(s@) == views(result@) + blocks(s@.skip(i as int)),
        ensures
            views(result@) == blocks(s@),
        decreases s@.len() - i,
    {
        let ghost rest = s@.skip(i as int);
        let ghost before = result@;
        let end: usize = find_gap(s, i);
        proof {
            lemma_gap(rest);
        }
        let block: Vec<char> = copied(slice_subrange(s, i, end));
        assert(block@ =~= rest.take(end - i));
        proof {
            lemma_views_push(before, block);
        }
        result.push(block);
        if end >= s.len() {
            assert(block@ =~= rest);
            assert(views(before) + seq![rest] =~= views(result@));
            break;
        }
        i = end + 2;
        assert(rest.skip(first_gap(rest) as int + 2) =~= s@.skip(i as int));
        assert(views(before) + (seq![block@] + blocks(s@.skip(i as int))) =~= views(result@)
            + blocks(s@.skip(i as int)));
    }
    result
}

proof fn lemma_gap(s: Seq<char>)
    ensures
        first_gap(s) <= s.len(),
        first_gap(s) < s.len() ==> first_gap(s) + 2 <= s.len(),
    decreases s.len(),
{
    if s.len() >= 2 && !(s[0] == '\n' && s[1] == '\n') {
        lemma_gap(s.skip(1));
    }
}

/// Reads `/proc/cpuinfo`: the model of the processor, and the clock of each CPU
/// in MHz, by its number.
pub fn parse_cpuinfo(text: &str) -> (result: (String, BTreeMap<usize, Double>))
    ensures
        result.0@ == match model_of(blocks(text@)) {
            Some(model) => model,
            None => "Linux processor"@,
        },
        result.1@ == clocks_of(blocks(text@)),
{
    let whole: Vec<char> = characters(text);
    let parts: Vec<Vec<char>> = split_blocks(whole.as_slice());
    let ghost all = blocks(text@);
    let mut model: Option<String> = None;
    let mut frequencies: BTreeMap<usize, Double> = BTreeMap::new();
    let mut i: usize = 0;
    while i < parts.len()
        invariant
            i <= parts@.len(),
            views(parts@) == all,
            all.len() == parts@.len(),
            optional_view(model) == model_of(all.take(i as int)),
            frequencies@ == clocks_of(all.take(i as int)),
        decreases parts@.len() - i,
    {
        broadcast use vstd::std_specs::btree::group_btree_axioms;
        assert(all[i as int] == parts@[i as int]@);
        assert(all.take(i + 1).drop_last() =~= all.take(i as int));
        let rows: Vec<Vec<char>> = split_lines(parts[i].as_slice());
        let ghost shown = lines(all[i as int]);
        let ghost earlier = optional_view(model);
        let mut id: Option<usize> = None;
        let mut frequency: Option<Double> = None;
        let mut k: usize = 0;
        while k < rows.len()
            invariant
                k <= rows@.len(),
                views(rows@) == shown,
                shown.len() == rows@.len(),
                id matches Some(number) ==> cpu_id(last_value(shown.take(k as int), "processor"@))
                    == Some(number as nat),
                id is None ==> cpu_id(last_value(shown.take(k as int), "processor"@)) is None,
                frequency == clock(last_value(shown.take(k as int), "cpu MHz"@)),
                optional_view(model) == match earlier {
                    Some(found) => Some(found),
                    None => first_model(shown.take(k as int)),
                },
            decreases rows@.len() - k,
        {
            assert(shown[k as int] == rows@[k as int]@);
            assert(shown.take(k + 1).drop_last() =~= shown.take(k as int));
            proof {
                reveal_strlit("processor");
                reveal_strlit("cpu MHz");
                reveal_strlit("model name");
                reveal_strlit("Hardware");
                reveal_strlit("Processor");
                assert("processor"@[0] == 'p');
                assert("cpu MHz"@[0] == 'c');
                assert("model name"@[0] == 'm');
                assert("Hardware"@[0] == 'H');
                assert("Processor"@[0] == 'P');
            }
            match split_once(rows[k].as_slice(), ':') {
                Some((left, right)) => {
                    let key: &[char] = trim(left);
                    let value: &[char] = trim(right);
                    if spells(key, "processor") {
                        id = parse_usize(value);
                    } else if spells(key, "cpu MHz") {
                        frequency = parse_positive(value);
                    } else if model.is_none() && (spells(key, "model name") || spells(
                        key,
                        "Hardware",
                    ) || spells(key, "Processor")) {
                        model = Some(string_of(value));
                    }
                },
                None => {},
            }
            k += 1;
        }
        assert(shown.take(k as int) =~= shown);
        match (id, frequency) {
            (Some(number), Some(mhz)) => {
                frequencies.insert(number, mhz);
            },
            _ => {},
        }
        i += 1;
    }
    assert(all.take(i as int) =~= all);
    let name: String = match model {
        Some(found) => found,
        None => "Linux processor".to_owned(),
    };
    (name, frequencies)
}

// ---------------------------------------------------------------------------
// Memory
// ---------------------------------------------------------------------------

/// How much memory there is, and what it is used for.
#[derive(Clone, Copy, Debug, PartialEq, Eq, Structural)]
pub struct Memory {
    pub total_bytes: u64,
    pub available_bytes: u64,
    pub used_bytes: u64,
    /// Reclaimable page/slab cache, excluding shared memory and buffers.
    pub cached_bytes: u64,
    pub swap_total_bytes: u64,
    pub swap_used_bytes: u64,
}

impl Default for Memory {
    fn default() -> (result: Self)
        ensures
            result == (Memory {
                total_bytes: 0,
                available_bytes: 0,
                used_bytes: 0,
                cached_bytes: 0,
                swap_total_bytes: 0,
                swap_used_bytes: 0,
            }),
    {
        Memory {
            total_bytes: 0,
            available_bytes: 0,
            used_bytes: 0,
            cached_bytes: 0,
            swap_total_bytes: 0,
            swap_used_bytes: 0,
        }
    }
}

/// The name and the bytes of a row that gives an amount in kB.
pub open spec fn amount_row(row: Seq<char>) -> Option<(Seq<char>, nat)> {
    match once(row, ':') {
        Some((name, value)) => {
            let fields = words(value);
            if fields.len() < 2 || fields[1] != "kB"@ {
                None
            } else {
                match unsigned(fields[0], u64::MAX as nat) {
                    Some(amount) => if amount * 1024 <= u64::MAX {
                        Some((name, amount * 1024))
                    } else {
                        None
                    },
                    None => None,
                }
            }
        },
        None => None,
    }
}

/// The bytes that the last row with this name gives.
pub open spec fn amount(rows: Seq<Seq<char>>, name: Seq<char>) -> Option<nat>
    decreases rows.len(),
{
    if rows.len() == 0 {
        None
    } else {
        match amount_row(rows.last()) {
            Some((found, bytes)) => if found == name {
                Some(bytes)
            } else {
                amount(rows.drop_last(), name)
            },
            None => amount(rows.drop_last(), name),
        }
    }
}

/// The bytes that the rows give a name; zero where they give none.
pub open spec fn amount_or_zero(rows: Seq<Seq<char>>, name: Seq<char>) -> nat {
    match amount(rows, name) {
        Some(bytes) => bytes,
        None => 0,
    }
}

pub open spec fn capped(value: int, limit: int) -> int {
    if value > limit {
        limit
    } else {
        value
    }
}

pub open spec fn not_below_zero(value: int) -> int {
    if value < 0 {
        0
    } else {
        value
    }
}

/// The reclaimable cache that the rows give: no more than all of the memory.
pub open spec fn cache(rows: Seq<Seq<char>>) -> int {
    capped(
        not_below_zero(
            capped(
                (amount_or_zero(rows, "Cached"@) + amount_or_zero(rows, "SReclaimable"@)) as int,
                u64::MAX as int,
            ) - amount_or_zero(rows, "Shmem"@),
        ),
        amount_or_zero(rows, "MemTotal"@) as int,
    )
}

/// The memory that the rows give as available or, where they do not, that is
/// free, in buffers or in the cache: no more than all of the memory.
pub open spec fn available(rows: Seq<Seq<char>>) -> int {
    let total = amount_or_zero(rows, "MemTotal"@) as int;
    match amount(rows, "MemAvailable"@) {
        Some(bytes) => capped(bytes as int, total),
        None => capped(
            amount_or_zero(rows, "MemFree"@) + amount_or_zero(rows, "Buffers"@) + cache(rows),
            total,
        ),
    }
}

/// Whether the rows say how much memory there is, and how much of it is
/// available or at least free.
pub open spec fn tells_memory(rows: Seq<Seq<char>>) -> bool {
    &&& amount_or_zero(rows, "MemTotal"@) > 0
    &&& amount(rows, "MemAvailable"@) is Some || amount(rows, "MemFree"@) is Some
}

/// What the rows say of the memory.
pub open spec fn memory_of(rows: Seq<Seq<char>>) -> Memory {
    let total = amount_or_zero(rows, "MemTotal"@);
    let swap = amount_or_zero(rows, "SwapTotal"@);
    Memory {
        total_bytes: total as u64,
        available_bytes: available(rows) as u64,
        used_bytes: (total - available(rows)) as u64,
        cached_bytes: cache(rows) as u64,
        swap_total_bytes: swap as u64,
        swap_used_bytes: not_below_zero(swap - amount_or_zero(rows, "SwapFree"@)) as u64,
    }
}

fn parse_amount_row(row: &[char]) -> (result: Option<(Vec<char>, u64)>)
    ensures
        result is None <==> amount_row(row@) is None,
        result matches Some((name, bytes)) ==> amount_row(row@) == Some((name@, bytes as nat)),
{
    match split_once(row, ':') {
        Some((name, value)) => {
            let fields: Vec<Vec<char>> = split_whitespace(value);
            let ghost shown = words(value@);
            assert(shown.len() == fields@.len());
            if fields.len() < 2 {
                return None;
            }
            assert(shown[0] == fields@[0]@);
            assert(shown[1] == fields@[1]@);
            if !spells(fields[1].as_slice(), "kB") {
                return None;
            }
            match parse_u64(fields[0].as_slice()) {
                Some(amount) => if amount <= u64::MAX / 1024 {
                    Some((copied(name), amount * 1024))
                } else {
                    None
                },
                None => None,
            }
        },
        None => None,
    }
}

fn last_amount(rows: &Vec<Vec<char>>, name: &str) -> (result: Option<u64>)
    ensures
        result matches Some(bytes) ==> amount(views(rows@), name@) == Some(bytes as nat),
        result is None ==> amount(views(rows@), name@) is None,
{
    let ghost all = views(rows@);
    let mut i: usize = rows.len();
    assert(all.take(i as int) =~= all);
    while i > 0
        invariant
            i <= rows@.len(),
            all == views(rows@),
            amount(all, name@) == amount(all.take(i as int), name@),
        decreases i,
    {
        i -= 1;
        assert(all[i as int] == rows@[i as int]@);
        assert(all.take(i + 1).drop_last() =~= all.take(i as int));
        match parse_amount_row(rows[i].as_slice()) {
            Some((found, bytes)) => {
                if spells(found.as_slice(), name) {
                    return Some(bytes);
                }
            },
            None => {},
        }
    }
    None
}

fn amount_of(rows: &Vec<Vec<char>>, name: &str) -> (result: u64)
    ensures
        result == amount_or_zero(views(rows@), name@),
{
    match last_amount(rows, name) {
        Some(bytes) => bytes,
        None => 0,
    }
}

/// Reads `/proc/meminfo`: the memory, and whether what is available of it had
/// to be estimated.
pub fn parse_memory(text: &str) -> (result: Option<(Memory, bool)>)
    ensures
        result is Some <==> tells_memory(lines(text@)),
        result matches Some((memory, estimated)) ==> memory == memory_of(lines(text@)) && estimated
            == (amount(lines(text@), "MemAvailable"@) is None),
{
    let rows: Vec<Vec<char>> = rows_of(text);
    let total: u64 = match last_amount(&rows, "MemTotal") {
        Some(bytes) => bytes,
        None => {
            return None;
        },
    };
    if total == 0 {
        return None;
    }
    let cached: u64 = amount_of(&rows, "Cached").saturating_add(
        amount_of(&rows, "SReclaimable"),
    ).saturating_sub(amount_of(&rows, "Shmem"));
    let cached: u64 = if cached > total {
        total
    } else {
        cached
    };
    assert(cached == cache(lines(text@)));
    let reported: Option<u64> = last_amount(&rows, "MemAvailable");
    let available: u64 = match reported {
        Some(bytes) => bytes,
        None => match last_amount(&rows, "MemFree") {
            Some(free) => free.saturating_add(amount_of(&rows, "Buffers")).saturating_add(cached),
            None => {
                return None;
            },
        },
    };
    let available: u64 = if available > total {
        total
    } else {
        available
    };
    let swap_total: u64 = amount_of(&rows, "SwapTotal");
    Some(
        (
            Memory {
                total_bytes: total,
                available_bytes: available,
                used_bytes: total - available,
                cached_bytes: cached,
                swap_total_bytes: swap_total,
                swap_used_bytes: swap_total.saturating_sub(amount_of(&rows, "SwapFree")),
            },
            reported.is_none(),
        ),
    )
}

/// What is used and what is available make up all of the memory, and no part of
/// it is larger than the whole.
pub proof fn lemma_memory_adds_up(rows: Seq<Seq<char>>)
    requires
        tells_memory(rows),
    ensures
        memory_of(rows).used_bytes + memory_of(rows).available_bytes == memory_of(rows).total_bytes,
        memory_of(rows).cached_bytes <= memory_of(rows).total_bytes,
        memory_of(rows).swap_used_bytes <= memory_of(rows).swap_total_bytes,
        memory_of(rows).total_bytes > 0,
{
    lemma_amount_fits(rows, "MemTotal"@);
    lemma_amount_fits(rows, "SwapTotal"@);
}

proof fn lemma_amount_fits(rows: Seq<Seq<char>>, name: Seq<char>)
    ensures
        amount_or_zero(rows, name) <= u64::MAX,
    decreases rows.len(),
{
    if rows.len() > 0 {
        lemma_amount_fits(rows.drop_last(), name);
    }
}

// ---------------------------------------------------------------------------
// Disks and networks
// ---------------------------------------------------------------------------

/// Two counters of bytes: read and written, or received and transmitted.
#[derive(Clone, Copy, Debug, PartialEq, Eq, Structural)]
pub struct Counters {
    pub first: u64,
    pub second: u64,
}

/// The size of a sector in the counters, whatever the disk's own is.
pub const SECTOR_BYTES: u64 = 512;

/// The bytes of so many sectors.
pub open spec fn sector_bytes(field: Seq<char>) -> Option<nat> {
    match unsigned(field, u64::MAX as nat) {
        Some(sectors) => if sectors * SECTOR_BYTES <= u64::MAX {
            Some((sectors * SECTOR_BYTES) as nat)
        } else {
            None
        },
        None => None,
    }
}

/// The device of a row and the bytes that it has read and written.
pub open spec fn disk_row(row: Seq<char>) -> Option<(Seq<char>, Counters)> {
    let fields = words(row);
    if fields.len() < 10 {
        None
    } else {
        match (sector_bytes(fields[5]), sector_bytes(fields[9])) {
            (Some(read), Some(written)) => Some(
                (fields[2], Counters { first: read as u64, second: written as u64 }),
            ),
            _ => None,
        }
    }
}

/// What rows say of the disks, by name.
pub open spec fn disk_counters(rows: Seq<Seq<char>>) -> Seq<(Seq<char>, Counters)>
    decreases rows.len(),
{
    if rows.len() == 0 {
        Seq::empty()
    } else {
        match disk_row(rows.last()) {
            Some((name, counters)) => inserted(disk_counters(rows.drop_last()), name, counters),
            None => disk_counters(rows.drop_last()),
        }
    }
}

fn parse_sectors(field: &[char]) -> (result: Option<u64>)
    ensures
        result matches Some(bytes) ==> sector_bytes(field@) == Some(bytes as nat),
        result is None ==> sector_bytes(field@) is None,
{
    match parse_u64(field) {
        Some(sectors) => if sectors <= u64::MAX / SECTOR_BYTES {
            Some(sectors * SECTOR_BYTES)
        } else {
            None
        },
        None => None,
    }
}

fn parse_disk_row(row: &[char]) -> (result: Option<(String, Counters)>)
    ensures
        result is None <==> disk_row(row@) is None,
        result matches Some((name, counters)) ==> disk_row(row@) == Some((name@, counters)),
{
    let fields: Vec<Vec<char>> = split_whitespace(row);
    let ghost shown = words(row@);
    assert(shown.len() == fields@.len());
    if fields.len() < 10 {
        return None;
    }
    assert(shown[2] == fields@[2]@);
    assert(shown[5] == fields@[5]@);
    assert(shown[9] == fields@[9]@);
    match (parse_sectors(fields[5].as_slice()), parse_sectors(fields[9].as_slice())) {
        (Some(first), Some(second)) => Some(
            (string_of(fields[2].as_slice()), Counters { first, second }),
        ),
        _ => None,
    }
}

/// Reads `/proc/diskstats`: the bytes that each device has read and written.
pub fn parse_diskstats(text: &str) -> (result: Table<Counters>)
    ensures
        result@ == disk_counters(lines(text@)),
{
    let rows: Vec<Vec<char>> = rows_of(text);
    let ghost all = lines(text@);
    let mut result: Table<Counters> = Table::new();
    let mut i: usize = 0;
    while i < rows.len()
        invariant
            i <= rows@.len(),
            views(rows@) == all,
            all.len() == rows@.len(),
            result@ == disk_counters(all.take(i as int)),
        decreases rows@.len() - i,
    {
        assert(all[i as int] == rows@[i as int]@);
        assert(all.take(i + 1).drop_last() =~= all.take(i as int));
        match parse_disk_row(rows[i].as_slice()) {
            Some((name, counters)) => {
                result.insert(name, counters);
            },
            None => {},
        }
        i += 1;
    }
    assert(all.take(i as int) =~= all);
    result
}

/// The interface of a row and the bytes that it has received and transmitted.
/// The loopback interface is left out.
pub open spec fn network_row(row: Seq<char>) -> Option<(Seq<char>, Counters)> {
    let behind = behind_last(row, ':') as int;
    if behind == 0 {
        None
    } else {
        let name = trimmed(row.take(behind - 1));
        let fields = words(row.skip(behind));
        if name.len() == 0 || name == "lo"@ || fields.len() < 16 {
            None
        } else {
            match (unsigned(fields[0], u64::MAX as nat), unsigned(fields[8], u64::MAX as nat)) {
                (Some(received), Some(sent)) => Some(
                    (name, Counters { first: received as u64, second: sent as u64 }),
                ),
                _ => None,
            }
        }
    }
}

/// What rows say of the interfaces, by name.
pub open spec fn network_counters(rows: Seq<Seq<char>>) -> Seq<(Seq<char>, Counters)>
    decreases rows.len(),
{
    if rows.len() == 0 {
        Seq::empty()
    } else {
        match network_row(rows.last()) {
            Some((name, counters)) => inserted(network_counters(rows.drop_last()), name, counters),
            None => network_counters(rows.drop_last()),
        }
    }
}

fn parse_network_row(row: &[char]) -> (result: Option<(String, Counters)>)
    ensures
        result is None <==> network_row(row@) is None,
        result matches Some((name, counters)) ==> network_row(row@) == Some((name@, counters)),
{
    let behind: usize = rfind(row, ':');
    if behind == 0 {
        return None;
    }
    let front: &[char] = slice_subrange(row, 0, behind - 1);
    let back: &[char] = slice_subrange(row, behind, row.len());
    assert(front@ =~= row@.take(behind - 1));
    assert(back@ =~= row@.skip(behind as int));
    let name: &[char] = trim(front);
    if name.len() == 0 || spells(name, "lo") {
        return None;
    }
    let fields: Vec<Vec<char>> = split_whitespace(back);
    let ghost shown = words(back@);
    assert(shown.len() == fields@.len());
    if fields.len() < 16 {
        return None;
    }
    assert(shown[0] == fields@[0]@);
    assert(shown[8] == fields@[8]@);
    match (parse_u64(fields[0].as_slice()), parse_u64(fields[8].as_slice())) {
        (Some(first), Some(second)) => Some((string_of(name), Counters { first, second })),
        _ => None,
    }
}

/// Reads `/proc/net/dev`: the bytes that each interface but the loopback has
/// received and transmitted.
pub fn parse_networks(text: &str) -> (result: Table<Counters>)
    ensures
        result@ == network_counters(lines(text@)),
{
    let rows: Vec<Vec<char>> = rows_of(text);
    let ghost all = lines(text@);
    let mut result: Table<Counters> = Table::new();
    let mut i: usize = 0;
    while i < rows.len()
        invariant
            i <= rows@.len(),
            views(rows@) == all,
            all.len() == rows@.len(),
            result@ == network_counters(all.take(i as int)),
        decreases rows@.len() - i,
    {
        assert(all[i as int] == rows@[i as int]@);
        assert(all.take(i + 1).drop_last() =~= all.take(i as int));
        match parse_network_row(rows[i].as_slice()) {
            Some((name, counters)) => {
                result.insert(name, counters);
            },
            None => {},
        }
        i += 1;
    }
    assert(all.take(i as int) =~= all);
    result
}

/// How fast a counter has moved on. There is no rate where no time has passed,
/// or where the counter has moved back.
pub open spec fn rate_between(
    previous: u64,
    current: u64,
    elapsed: Option<Double>,
) -> Option<Double> {
    match elapsed {
        Some(seconds) => {
            let rate = Double::integer((current - previous) as nat).quotient(seconds);
            if seconds.finite() && Double::zero().less(seconds) && previous <= current
                && rate.finite() {
                Some(rate)
            } else {
                None
            }
        },
        None => None,
    }
}

/// How much a counter has moved on per second.
pub fn counter_rate(previous: u64, current: u64, elapsed: Option<Double>) -> (result: Option<
    Double,
>)
    ensures
        result == rate_between(previous, current, elapsed),
{
    match elapsed {
        Some(seconds) => {
            if !seconds.is_finite() || !Double::from_bits(0).is_less(seconds) || current
                < previous {
                return None;
            }
            let rate: Double = Double::from_integer((current - previous) as u128).div(seconds);
            if rate.is_finite() {
                Some(rate)
            } else {
                None
            }
        },
        None => None,
    }
}

/// The generation of a disk that the text of its `diskseq` gives.
pub open spec fn generation(text: Option<Seq<char>>) -> Option<nat> {
    match said(text) {
        Some(inner) => match unsigned(inner, u64::MAX as nat) {
            Some(sequence) => if sequence > 0 {
                Some(sequence)
            } else {
                None
            },
            None => None,
        },
        None => None,
    }
}

/// The generation of a disk: another disk under the same name has another one.
pub fn disk_sequence(text: &Option<String>) -> (result: Option<u64>)
    ensures
        result matches Some(sequence) ==> generation(optional_view(*text)) == Some(
            sequence as nat,
        ),
        result is None ==> generation(optional_view(*text)) is None,
{
    match read_trimmed(text) {
        Some(inner) => match parse_u64(inner.as_slice()) {
            Some(sequence) => if sequence > 0 {
                Some(sequence)
            } else {
                None
            },
            None => None,
        },
        None => None,
    }
}

/// The index of an interface that the text of its `ifindex` gives.
pub open spec fn interface_index(text: Option<Seq<char>>) -> Option<nat> {
    match said(text) {
        Some(inner) => match unsigned(inner, u32::MAX as nat) {
            Some(index) => if index > 0 {
                Some(index)
            } else {
                None
            },
            None => None,
        },
        None => None,
    }
}

/// The index of an interface: another interface under the same name has another.
pub fn network_ifindex(text: &Option<String>) -> (result: Option<u32>)
    ensures
        result matches Some(index) ==> interface_index(optional_view(*text)) == Some(index as nat),
        result is None ==> interface_index(optional_view(*text)) is None,
{
    match read_trimmed(text) {
        Some(inner) => match parse_u32(inner.as_slice()) {
            Some(index) => if index > 0 {
                Some(index)
            } else {
                None
            },
            None => None,
        },
        None => None,
    }
}

/// What rows say is known by name, each name once and in order.
pub proof fn lemma_counters_in_order(rows: Seq<Seq<char>>)
    ensures
        in_order(cpu_times(rows)),
        in_order(disk_counters(rows)),
        in_order(network_counters(rows)),
    decreases rows.len(),
{
    if rows.len() > 0 {
        let rest = rows.drop_last();
        lemma_counters_in_order(rest);
        if let Some((name, times)) = cpu_row(rows.last()) {
            lemma_inserted_in_order(cpu_times(rest), name, times);
        }
        if let Some((name, counters)) = disk_row(rows.last()) {
            lemma_inserted_in_order(disk_counters(rest), name, counters);
        }
        if let Some((name, counters)) = network_row(rows.last()) {
            lemma_inserted_in_order(network_counters(rest), name, counters);
        }
    }
}

/// A rate is a number that is not below zero, and there is none of a counter that
/// has moved back.
pub proof fn lemma_rate(previous: u64, current: u64, elapsed: Option<Double>)
    ensures
        match rate_between(previous, current, elapsed) {
            Some(rate) => rate.finite() && !rate.less(Double::zero()) && previous <= current,
            None => true,
        },
        current < previous || elapsed is None ==> rate_between(previous, current, elapsed) is None,
{
    if let Some(rate) = rate_between(previous, current, elapsed) {
        lemma_quotient_sign((current - previous) as nat, elapsed->0);
    }
}

/// Between two readings there is a rate exactly where time has passed and the counter has
/// not moved back: it is how much the counter has moved on over the seconds between them.
pub proof fn lemma_rate_is_known(previous: u64, current: u64, from: Option<u64>, to: u64)
    ensures
        rate_between(previous, current, seconds_since(from, to)) is Some <==> from is Some
            && from->0 < to && previous <= current,
        match rate_between(previous, current, seconds_since(from, to)) {
            Some(rate) => rate == Double::integer((current - previous) as nat).quotient(
                Double::seconds((to - from->0) as nat),
            ),
            None => true,
        },
{
    if let Some(earlier) = from {
        if earlier >= to {
            lemma_no_seconds();
        } else if previous <= current {
            let passed = (to - earlier) as nat;
            let moved = (current - previous) as nat;
            lemma_seconds(passed);
            lemma_powers();
            lemma2_to64();
            lemma_integer_between(moved, 0, 64);
            lemma_quotient_at_most(
                Double::integer(moved),
                Double::seconds(passed),
                1138,
                1044,
                1168,
            );
        }
    }
}

proof fn lemma_quotient_sign(amount: nat, seconds: Double)
    requires
        amount <= u64::MAX,
        seconds.finite(),
        Double::zero().less(seconds),
    ensures
        !Double::integer(amount).quotient(seconds).negative(),
{
    lemma_integers(amount, amount);
    let num = units(Double::integer(amount).size()) * pow2(FINEST as nat);
    let den = units(seconds.size());
    lemma_units_increase(0, seconds.size());
    lemma_rounded(num, den);
}

// ---------------------------------------------------------------------------
// Ticks and shares
// ---------------------------------------------------------------------------

/// All ticks that a reading counts, each once.
pub open spec fn all_ticks(times: CpuTimes) -> nat {
    times.0[0] as nat + times.0[1] as nat + times.0[2] as nat + times.0[3] as nat
        + times.0[4] as nat + times.0[5] as nat + times.0[6] as nat + times.0[7] as nat
}

/// Whether no counter of a reading is behind that of an earlier one.
pub open spec fn moved_on(previous: CpuTimes, current: CpuTimes) -> bool {
    forall|i: int| 0 <= i < 8 ==> previous.0[i] <= #[trigger] current.0[i]
}

/// The ticks between two readings are those that all eight counters have moved on by,
/// each counted once, and those of them that are idle are those of the fourth and the fifth.
pub proof fn lemma_ticks_are_counted_once(previous: CpuTimes, current: CpuTimes)
    requires
        moved_on(previous, current),
    ensures
        elapsed_ticks(previous, current) == all_ticks(current) - all_ticks(previous),
        idle_ticks(previous, current) == current.0[3] - previous.0[3] + current.0[4]
            - previous.0[4],
{
    assert(forall|i: int| 0 <= i < 8 ==> previous.0[i] <= #[trigger] current.0[i]);
    assert(previous.0[0] <= current.0[0] && previous.0[1] <= current.0[1]);
    assert(previous.0[2] <= current.0[2] && previous.0[3] <= current.0[3]);
    assert(previous.0[4] <= current.0[4] && previous.0[5] <= current.0[5]);
    assert(previous.0[6] <= current.0[6] && previous.0[7] <= current.0[7]);
}

/// A counter that moves on by some more ticks adds as many to the ticks between the readings,
/// whichever counter it is.
pub proof fn lemma_every_counter_counts(
    previous: CpuTimes,
    current: CpuTimes,
    later: CpuTimes,
    k: int,
)
    requires
        moved_on(previous, current),
        0 <= k < 8,
        current.0[k] <= later.0[k],
        forall|i: int| 0 <= i < 8 && i != k ==> #[trigger] later.0[i] == current.0[i],
    ensures
        elapsed_ticks(previous, later) == elapsed_ticks(previous, current) + later.0[k]
            - current.0[k],
{
    assert forall|i: int| 0 <= i < 8 implies previous.0[i] <= #[trigger] later.0[i] by {
        assert(previous.0[i] <= current.0[i]);
    }
    lemma_ticks_are_counted_once(previous, current);
    lemma_ticks_are_counted_once(previous, later);
    lemma_one_counter(current, later, k);
}

proof fn lemma_one_counter(current: CpuTimes, later: CpuTimes, k: int)
    requires
        0 <= k < 8,
        forall|i: int| 0 <= i < 8 && i != k ==> #[trigger] later.0[i] == current.0[i],
    ensures
        all_ticks(later) - all_ticks(current) == later.0[k] - current.0[k],
{
    assert(k != 0 ==> later.0[0] == current.0[0]);
    assert(k != 1 ==> later.0[1] == current.0[1]);
    assert(k != 2 ==> later.0[2] == current.0[2]);
    assert(k != 3 ==> later.0[3] == current.0[3]);
    assert(k != 4 ==> later.0[4] == current.0[4]);
    assert(k != 5 ==> later.0[5] == current.0[5]);
    assert(k != 6 ==> later.0[6] == current.0[6]);
    assert(k != 7 ==> later.0[7] == current.0[7]);
}

/// It makes no difference which of the busy counters the busy ticks are spent in: with the
/// same ticks in all, and the same of them idle and waiting, the share is the same.
pub proof fn lemma_busy_counters_are_alike(
    previous: CpuTimes,
    current: CpuTimes,
    other: CpuTimes,
)
    requires
        moved_on(previous, current),
        moved_on(previous, other),
        all_ticks(current) == all_ticks(other),
        current.0[3] as nat + current.0[4] as nat == other.0[3] as nat + other.0[4] as nat,
    ensures
        busy_share(previous, current) == busy_share(previous, other),
{
    lemma_ticks_are_counted_once(previous, current);
    lemma_ticks_are_counted_once(previous, other);
}

/// The share of busy time is that of the ticks that are neither idle nor waiting for I/O,
/// in percent and but for rounding. Waiting counts for nothing where its counter has moved
/// back; where no tick has passed there is no share.
pub proof fn lemma_share_of_busy_ticks(previous: CpuTimes, current: CpuTimes)
    requires
        forall|i: int| 0 <= i < 8 && i != 4 ==> previous.0[i] <= #[trigger] current.0[i],
    ensures
        ({
            let waited = if previous.0[4] <= current.0[4] {
                current.0[4] - previous.0[4]
            } else {
                0
            };
            let all = all_ticks(current) - current.0[4] - (all_ticks(previous) - previous.0[4])
                + waited;
            let busy = all - waited - (current.0[3] - previous.0[3]);
            &&& busy_share(previous, current) is None <==> all == 0
            &&& busy_share(previous, current) matches Some(share) ==> is_percentage(
                share,
                busy as nat,
                all as nat,
            )
        }),
{
    assert(previous.0[0] <= current.0[0] && previous.0[1] <= current.0[1]);
    assert(previous.0[2] <= current.0[2] && previous.0[3] <= current.0[3]);
    assert(previous.0[5] <= current.0[5]);
    assert(previous.0[6] <= current.0[6] && previous.0[7] <= current.0[7]);
    let all = elapsed_ticks(previous, current);
    let busy = (all - idle_ticks(previous, current)) as nat;
    if all > 0 {
        lemma_share(busy, all);
        lemma_percentage(busy, all);
    }
}

/// Where a counter other than that of waiting for I/O has moved back there is no share.
pub proof fn lemma_no_share_where_ticks_are_lost(previous: CpuTimes, current: CpuTimes, i: int)
    requires
        0 <= i < 8,
        i != 4,
        current.0[i] < previous.0[i],
    ensures
        busy_share(previous, current) is None,
{
}

// ---------------------------------------------------------------------------
// Rows and their columns
// ---------------------------------------------------------------------------

/// A row of `/proc/stat` is one of a CPU where it names one and has four counters or more,
/// and each counter is the number in the column of its own.
pub proof fn lemma_cpu_columns(row: Seq<char>)
    ensures
        ({
            let fields = words(row);
            &&& cpu_row(row) is Some <==> {
                &&& fields.len() >= 5
                &&& fields[0] == "cpu"@ || cpu_number(fields[0]) is Some
                &&& forall|i: int|
                    1 <= i < 9 && i < fields.len() ==> unsigned(
                        #[trigger] fields[i],
                        u64::MAX as nat,
                    ) is Some
            }
            &&& cpu_row(row) matches Some((name, times)) ==> {
                &&& name == fields[0]
                &&& forall|i: int|
                    0 <= i < 8 ==> if i + 1 < fields.len() {
                        unsigned(fields[i + 1], u64::MAX as nat) == Some(#[trigger] times.0[i] as nat)
                    } else {
                        times.0[i] == 0
                    }
            }
        }),
{
    let fields = words(row);
    if let Some((name, times)) = cpu_row(row) {
        assert forall|i: int| 0 <= i < 8 implies if i + 1 < fields.len() {
            unsigned(fields[i + 1], u64::MAX as nat) == Some(#[trigger] times.0[i] as nat)
        } else {
            times.0[i] == 0
        } by {
            assert(times.0[0] == column(fields, 1) && times.0[1] == column(fields, 2));
            assert(times.0[2] == column(fields, 3) && times.0[3] == column(fields, 4));
            assert(times.0[4] == column(fields, 5) && times.0[5] == column(fields, 6));
            assert(times.0[6] == column(fields, 7) && times.0[7] == column(fields, 8));
            assert(times.0[i] == column(fields, i + 1));
            if i + 1 < fields.len() {
                assert(unsigned(fields[i + 1], u64::MAX as nat) is Some);
            }
        }
    }
}

/// A row of `/proc/diskstats` gives the bytes that a device has read, by the sixth column, and
/// has written, by the tenth, of 512 bytes for each sector.
pub proof fn lemma_disk_columns(row: Seq<char>, read: nat, written: nat)
    requires
        words(row).len() >= 10,
        unsigned(words(row)[5], u64::MAX as nat) == Some(read),
        unsigned(words(row)[9], u64::MAX as nat) == Some(written),
    ensures
        match disk_row(row) {
            Some((name, counters)) => {
                &&& name == words(row)[2]
                &&& counters.first == read * 512
                &&& counters.second == written * 512
            },
            None => read * 512 > u64::MAX || written * 512 > u64::MAX,
        },
        disk_row(row) is Some <==> read * 512 <= u64::MAX && written * 512 <= u64::MAX,
{
}

/// A row of `/proc/net/dev` gives the bytes that an interface has received, by the first column
/// behind its name, and has transmitted, by the ninth. The loopback interface has none.
pub proof fn lemma_network_columns(
    name: Seq<char>,
    rest: Seq<char>,
    received: nat,
    transmitted: nat,
)
    requires
        !rest.contains(':'),
        trimmed(name).len() > 0,
        words(rest).len() >= 16,
        unsigned(words(rest)[0], u64::MAX as nat) == Some(received),
        unsigned(words(rest)[8], u64::MAX as nat) == Some(transmitted),
    ensures
        trimmed(name) != "lo"@ ==> network_row(name.push(':') + rest) == Some(
            (
                trimmed(name),
                Counters { first: received as u64, second: transmitted as u64 },
            ),
        ),
        trimmed(name) == "lo"@ ==> network_row(name.push(':') + rest) is None,
{
    let row = name.push(':') + rest;
    lemma_behind_last(name, ':', rest);
    assert(row.take(name.len() as int) =~= name);
    assert(row.skip(name.len() as int + 1) =~= rest);
}

/// Whether what was read of a row is under a name.
pub open spec fn is_under<V>(found: Option<(Seq<char>, V)>, name: Seq<char>) -> bool {
    match found {
        Some((under, _)) => under == name,
        None => false,
    }
}

/// Whether a table has under a name what the last row gives it, and nothing where no row does.
#[verifier::opaque]
pub open spec fn last_counts<V>(
    table: Seq<(Seq<char>, V)>,
    found: Seq<Option<(Seq<char>, V)>>,
    name: Seq<char>,
    k: int,
) -> bool {
    &&& 0 <= k < found.len() && is_under(found[k], name) && (forall|i: int|
        k < i < found.len() ==> !is_under(#[trigger] found[i], name)) ==> found[k] == Some(
        (name, lookup(table, name)->0),
    ) && lookup(table, name) is Some
    &&& (forall|i: int| 0 <= i < found.len() ==> !is_under(#[trigger] found[i], name)) ==> lookup(
        table,
        name,
    ) is None
}

proof fn lemma_last_counts<V>(
    table: Seq<(Seq<char>, V)>,
    found: Seq<Option<(Seq<char>, V)>>,
    name: Seq<char>,
    k: int,
    last: Option<(Seq<char>, V)>,
    after: Seq<(Seq<char>, V)>,
)
    requires
        last_counts(table, found, name, k),
        in_order(table),
        after == match last {
            Some((under, value)) => inserted(table, under, value),
            None => table,
        },
    ensures
        last_counts(after, found.push(last), name, k),
        last_counts(after, found.push(last), name, found.len() as int),
        in_order(after),
{
    reveal(last_counts);
    let all = found.push(last);
    assert(all[found.len() as int] == last);
    assert(forall|i: int| 0 <= i < found.len() ==> found[i] == #[trigger] all[i]);
    if let Some((under, value)) = last {
        lemma_inserted_lookup(table, under, value, name);
        lemma_inserted_in_order(table, under, value);
    }
    assert((forall|i: int| 0 <= i < all.len() ==> !is_under(#[trigger] all[i], name)) ==> (forall|
        i: int,
    |
        0 <= i < found.len() ==> !is_under(#[trigger] found[i], name))) by {
        assert forall|i: int|
            (forall|j: int| 0 <= j < all.len() ==> !is_under(#[trigger] all[j], name)) && 0 <= i
                < found.len() implies !is_under(#[trigger] found[i], name) by {
            assert(!is_under(all[i], name));
        }
    }
    if 0 <= k < found.len() && is_under(all[k], name) && (forall|i: int|
        k < i < all.len() ==> !is_under(#[trigger] all[i], name)) {
        assert forall|i: int| k < i < found.len() implies !is_under(#[trigger] found[i], name) by {
            assert(!is_under(all[i], name));
        }
    }
}

/// What rows give, row by row.
pub open spec fn read_rows<V>(
    rows: Seq<Seq<char>>,
    read: spec_fn(Seq<char>) -> Option<(Seq<char>, V)>,
) -> Seq<Option<(Seq<char>, V)>> {
    rows.map_values(read)
}

proof fn lemma_last_cpu_row_counts(rows: Seq<Seq<char>>, name: Seq<char>, k: int)
    ensures
        last_counts(cpu_times(rows), read_rows(rows, |row: Seq<char>| cpu_row(row)), name, k),
        in_order(cpu_times(rows)),
    decreases rows.len(),
{
    let read = |row: Seq<char>| cpu_row(row);
    if rows.len() > 0 {
        let rest = rows.drop_last();
        let last = rows.last();
        lemma_last_cpu_row_counts(rest, name, k);
        assert(read_rows(rows, read) =~= read_rows(rest, read).push(cpu_row(last)));
        lemma_last_counts(
            cpu_times(rest),
            read_rows(rest, read),
            name,
            k,
            cpu_row(last),
            cpu_times(rows),
        );
    } else {
        reveal(last_counts);
    }
}

proof fn lemma_last_disk_row_counts(rows: Seq<Seq<char>>, name: Seq<char>, k: int)
    ensures
        last_counts(disk_counters(rows), read_rows(rows, |row: Seq<char>| disk_row(row)), name, k),
        in_order(disk_counters(rows)),
    decreases rows.len(),
{
    let read = |row: Seq<char>| disk_row(row);
    if rows.len() > 0 {
        let rest = rows.drop_last();
        let last = rows.last();
        lemma_last_disk_row_counts(rest, name, k);
        assert(read_rows(rows, read) =~= read_rows(rest, read).push(disk_row(last)));
        lemma_last_counts(
            disk_counters(rest),
            read_rows(rest, read),
            name,
            k,
            disk_row(last),
            disk_counters(rows),
        );
    } else {
        reveal(last_counts);
    }
}

proof fn lemma_last_network_row_counts(rows: Seq<Seq<char>>, name: Seq<char>, k: int)
    ensures
        last_counts(network_counters(rows), read_rows(rows, |row: Seq<char>| network_row(row)), name, k),
        in_order(network_counters(rows)),
    decreases rows.len(),
{
    let read = |row: Seq<char>| network_row(row);
    if rows.len() > 0 {
        let rest = rows.drop_last();
        let last = rows.last();
        lemma_last_network_row_counts(rest, name, k);
        assert(read_rows(rows, read) =~= read_rows(rest, read).push(network_row(last)));
        lemma_last_counts(
            network_counters(rest),
            read_rows(rest, read),
            name,
            k,
            network_row(last),
            network_counters(rows),
        );
    } else {
        reveal(last_counts);
    }
}

/// Of rows with one name the last counts, and a name that no row has is not known.
pub proof fn lemma_last_row_counts(rows: Seq<Seq<char>>, name: Seq<char>, k: int)
    ensures
        last_counts(cpu_times(rows), read_rows(rows, |row: Seq<char>| cpu_row(row)), name, k),
        last_counts(disk_counters(rows), read_rows(rows, |row: Seq<char>| disk_row(row)), name, k),
        last_counts(
            network_counters(rows),
            read_rows(rows, |row: Seq<char>| network_row(row)),
            name,
            k,
        ),
        in_order(cpu_times(rows)),
        in_order(disk_counters(rows)),
        in_order(network_counters(rows)),
{
    lemma_last_cpu_row_counts(rows, name, k);
    lemma_last_disk_row_counts(rows, name, k);
    lemma_last_network_row_counts(rows, name, k);
}

// ---------------------------------------------------------------------------
// Memory
// ---------------------------------------------------------------------------

/// A row of `/proc/meminfo` gives 1024 bytes for each kB.
pub proof fn lemma_amounts_are_kibibytes(name: Seq<char>, rest: Seq<char>, kib: nat)
    requires
        !name.contains(':'),
        words(rest).len() >= 2,
        words(rest)[1] == "kB"@,
        unsigned(words(rest)[0], u64::MAX as nat) == Some(kib),
    ensures
        amount_row(name.push(':') + rest) == if kib * 1024 <= u64::MAX {
            Some((name, kib * 1024))
        } else {
            None
        },
{
    lemma_parted_once(name, ':', rest);
}

/// Where the memory that is available is reported, what is used is the rest of it.
pub proof fn lemma_used_is_what_is_not_available(
    rows: Seq<Seq<char>>,
    total: nat,
    available: nat,
)
    requires
        amount(rows, "MemTotal"@) == Some(total),
        amount(rows, "MemAvailable"@) == Some(available),
        0 < total,
        available <= total,
    ensures
        tells_memory(rows),
        memory_of(rows).total_bytes == total,
        memory_of(rows).available_bytes == available,
        memory_of(rows).used_bytes == total - available,
{
    lemma_amount_fits(rows, "MemTotal"@);
}

/// Where it is not reported, it is what is free, in buffers or in the cache.
pub proof fn lemma_available_is_estimated(
    rows: Seq<Seq<char>>,
    total: nat,
    free: nat,
    buffers: nat,
    cached: nat,
)
    requires
        amount(rows, "MemTotal"@) == Some(total),
        amount(rows, "MemAvailable"@) is None,
        amount(rows, "MemFree"@) == Some(free),
        amount(rows, "Buffers"@) == Some(buffers),
        memory_of(rows).cached_bytes == cached,
        0 < total,
        free + buffers + cached <= total,
    ensures
        tells_memory(rows),
        memory_of(rows).available_bytes == free + buffers + cached,
        memory_of(rows).used_bytes == total - free - buffers - cached,
{
    lemma_amount_fits(rows, "MemTotal"@);
}

/// The cache is the page cache and the slabs that can be reclaimed, without what is shared.
pub proof fn lemma_cache_is_reclaimable(
    rows: Seq<Seq<char>>,
    total: nat,
    pages: nat,
    slabs: nat,
    shared: nat,
)
    requires
        amount(rows, "MemTotal"@) == Some(total),
        amount(rows, "Cached"@) == Some(pages),
        amount(rows, "SReclaimable"@) == Some(slabs),
        amount(rows, "Shmem"@) == Some(shared),
        shared <= pages + slabs <= total,
    ensures
        memory_of(rows).cached_bytes + shared == pages + slabs,
{
    lemma_amount_fits(rows, "MemTotal"@);
}

/// What is used of the swap and what is free of it make up all of it.
pub proof fn lemma_swap_adds_up(rows: Seq<Seq<char>>, total: nat, free: nat)
    requires
        amount(rows, "SwapTotal"@) == Some(total),
        amount(rows, "SwapFree"@) == Some(free),
        free <= total,
    ensures
        memory_of(rows).swap_total_bytes == total,
        memory_of(rows).swap_used_bytes + free == total,
{
    lemma_amount_fits(rows, "SwapTotal"@);
}

/// Of rows with one name the last gives its amount.
pub proof fn lemma_last_amount_counts(rows: Seq<Seq<char>>, k: int, name: Seq<char>, bytes: nat)
    requires
        0 <= k < rows.len(),
        amount_row(rows[k]) == Some((name, bytes)),
        forall|i: int| k < i < rows.len() ==> !is_under(amount_row(#[trigger] rows[i]), name),
    ensures
        amount(rows, name) == Some(bytes),
    decreases rows.len(),
{
    if k < rows.len() - 1 {
        assert(!is_under(amount_row(rows[rows.len() - 1]), name));
        let rest = rows.drop_last();
        assert(forall|i: int| 0 <= i < rest.len() ==> rest[i] == #[trigger] rows[i]);
        lemma_last_amount_counts(rest, k, name, bytes);
    }
}

/// A rate between two readings is how much the counter has moved on per second, but for
/// rounding: as many times as the nanoseconds between them it is a billion times as much.
pub proof fn lemma_rate_is_what_moved_on(previous: u64, current: u64, from: u64, to: u64)
    requires
        from < to,
        previous <= current,
    ensures
        match rate_between(previous, current, seconds_since(Some(from), to)) {
            Some(rate) => is_rate(rate, (current - previous) as nat, (to - from) as nat),
            None => false,
        },
{
    lemma_rate_is_known(previous, current, Some(from), to);
    lemma_rate_per_second((current - previous) as nat, (to - from) as nat);
}

// ---------------------------------------------------------------------------
// Laws of CPUs
// ---------------------------------------------------------------------------

/// A CPU is named by its number, and nothing else names it.
pub proof fn lemma_cpus_are_numbered(n: nat, name: Seq<char>)
    ensures
        n <= usize::MAX ==> cpu_number("cpu"@ + decimal(n)) == Some(n),
        n > usize::MAX ==> cpu_number("cpu"@ + decimal(n)) is None,
        cpu_number("cpu"@) is None,
        !begins(name, "cpu"@) ==> cpu_number(name) is None,
        cpu_number(name) matches Some(number) ==> begins(name, "cpu"@) && digits_value(
            name.skip("cpu"@.len() as int + if name["cpu"@.len() as int] == '+' {
                1int
            } else {
                0
            }),
        ) == number,
{
    let front = "cpu"@;
    let text = front + decimal(n);
    lemma_decimal_reads_back(n, usize::MAX as nat);
    lemma_decimal_counts(n);
    assert(text.take(front.len() as int) =~= front);
    assert(text.skip(front.len() as int) =~= decimal(n));
    assert(decimal(n)[0] != '+') by {
        assert(is_digit(decimal(n)[0]));
    }
    assert(front.skip(front.len() as int) =~= Seq::<char>::empty());
    if let Some(number) = cpu_number(name) {
        let rest = name.skip(front.len() as int);
        assert(rest[0] == name[front.len() as int]);
        assert(rest.skip(1) =~= name.skip(front.len() as int + 1));
    }
}

/// Of rows with the same key the last counts.
pub proof fn lemma_last_value_counts(rows: Seq<Seq<char>>, key: Seq<char>, k: int, value: Seq<char>)
    requires
        0 <= k < rows.len(),
        key_value(rows[k]) == Some((key, value)),
        forall|i: int|
            k < i < rows.len() ==> !is_under(key_value(#[trigger] rows[i]), key),
    ensures
        last_value(rows, key) == Some(value),
    decreases rows.len(),
{
    if k < rows.len() - 1 {
        assert(!is_under(key_value(rows[rows.len() - 1]), key));
        let less = rows.drop_last();
        assert(less[k] == rows[k]);
        lemma_last_value_counts(less, key, k, value);
    }
}

/// A key that no row has has no value.
pub proof fn lemma_value_is_of_its_key(rows: Seq<Seq<char>>, key: Seq<char>)
    ensures
        last_value(rows, key) matches Some(value) ==> exists|i: int|
            0 <= i < rows.len() && key_value(#[trigger] rows[i]) == Some((key, value)),
    decreases rows.len(),
{
    if rows.len() > 0 {
        let less = rows.drop_last();
        lemma_value_is_of_its_key(less, key);
        if let Some(value) = last_value(rows, key) {
            if key_value(rows.last()) == Some((key, value)) {
                assert(key_value(rows[rows.len() - 1]) == Some((key, value)));
            } else {
                let i = choose|i: int|
                    0 <= i < less.len() && key_value(#[trigger] less[i]) == Some((key, value));
                assert(less[i] == rows[i]);
            }
        }
    }
}

/// The key of a row stands before its first colon and the value behind it, blanks aside.
pub proof fn lemma_keys_and_values(key: Seq<char>, value: Seq<char>)
    requires
        !key.contains(':'),
    ensures
        key_value(key.push(':') + value) == Some((trimmed(key), trimmed(value))),
        key_value(key) is None,
{
    lemma_parted_once(key, ':', value);
    lemma_no_separator(key, ':');
}

/// Whether a row names the model of a processor.
pub open spec fn tells_model(row: Seq<char>) -> bool {
    match key_value(row) {
        Some((key, _)) => names_model(key),
        None => false,
    }
}

/// The model is that of the first row that names one.
pub proof fn lemma_first_model_counts(rows: Seq<Seq<char>>, k: int)
    requires
        0 <= k < rows.len(),
        tells_model(rows[k]),
        forall|i: int| 0 <= i < k ==> !tells_model(#[trigger] rows[i]),
    ensures
        first_model(rows) matches Some(model) && key_value(rows[k]) matches Some((_, value))
            && model == value,
    decreases rows.len(),
{
    let less = rows.drop_last();
    if k < rows.len() - 1 {
        assert(less[k] == rows[k]);
        assert forall|i: int| 0 <= i < k implies !tells_model(#[trigger] less[i]) by {
            assert(less[i] == rows[i]);
        }
        lemma_first_model_counts(less, k);
    } else {
        assert forall|i: int| 0 <= i < less.len() implies !tells_model(#[trigger] less[i]) by {
            assert(less[i] == rows[i]);
        }
        lemma_no_model(less);
    }
}

/// Rows of which none names a model name none.
pub proof fn lemma_no_model(rows: Seq<Seq<char>>)
    requires
        forall|i: int| 0 <= i < rows.len() ==> !tells_model(#[trigger] rows[i]),
    ensures
        first_model(rows) is None,
    decreases rows.len(),
{
    if rows.len() > 0 {
        let less = rows.drop_last();
        assert forall|i: int| 0 <= i < less.len() implies !tells_model(#[trigger] less[i]) by {
            assert(less[i] == rows[i]);
        }
        assert(!tells_model(rows[rows.len() - 1]));
        lemma_no_model(less);
    }
}

/// The model of all blocks is that of the first that names one.
pub proof fn lemma_first_block_counts(parts: Seq<Seq<char>>, k: int)
    requires
        0 <= k < parts.len(),
        first_model(lines(parts[k])) is Some,
        forall|i: int| 0 <= i < k ==> first_model(lines(#[trigger] parts[i])) is None,
    ensures
        model_of(parts) == first_model(lines(parts[k])),
    decreases parts.len(),
{
    let less = parts.drop_last();
    if k < parts.len() - 1 {
        assert(less[k] == parts[k]);
        assert forall|i: int| 0 <= i < k implies first_model(lines(#[trigger] less[i])) is None by {
            assert(less[i] == parts[i]);
        }
        lemma_first_block_counts(less, k);
    } else {
        assert forall|i: int| 0 <= i < less.len() implies first_model(
            lines(#[trigger] less[i]),
        ) is None by {
            assert(less[i] == parts[i]);
        }
        lemma_no_block(less);
    }
}

proof fn lemma_no_block(parts: Seq<Seq<char>>)
    requires
        forall|i: int| 0 <= i < parts.len() ==> first_model(lines(#[trigger] parts[i])) is None,
    ensures
        model_of(parts) is None,
    decreases parts.len(),
{
    if parts.len() > 0 {
        let less = parts.drop_last();
        assert forall|i: int| 0 <= i < less.len() implies first_model(
            lines(#[trigger] less[i]),
        ) is None by {
            assert(less[i] == parts[i]);
        }
        assert(first_model(lines(parts[parts.len() - 1])) is None);
        lemma_no_block(less);
    }
}

/// Whether a block gives a CPU of this number this clock.
pub open spec fn tells_clock(part: Seq<char>, id: usize, mhz: Double) -> bool {
    &&& cpu_id(last_value(lines(part), "processor"@)) == Some(id as nat)
    &&& clock(last_value(lines(part), "cpu MHz"@)) == Some(mhz)
}

/// The clock of a CPU is that of the last block that gives one to its number.
pub proof fn lemma_last_clock_counts(parts: Seq<Seq<char>>, id: usize, k: int, mhz: Double)
    requires
        0 <= k < parts.len(),
        tells_clock(parts[k], id, mhz),
        forall|i: int, other: Double|
            k < i < parts.len() ==> !(#[trigger] tells_clock(parts[i], id, other)),
    ensures
        clocks_of(parts).contains_key(id) && clocks_of(parts)[id] == mhz,
    decreases parts.len(),
{
    let less = parts.drop_last();
    let rows = lines(parts.last());
    if k < parts.len() - 1 {
        assert(less[k] == parts[k]);
        assert forall|i: int, other: Double| k < i < less.len() implies !(#[trigger] tells_clock(
            less[i],
            id,
            other,
        )) by {
            assert(less[i] == parts[i]);
            assert(!tells_clock(parts[i], id, other));
        }
        lemma_last_clock_counts(less, id, k, mhz);
        if let Some(other) = clock(last_value(rows, "cpu MHz"@)) {
            assert(!tells_clock(parts[parts.len() - 1], id, other));
        }
    }
}

/// A CPU that no block gives a clock has none.
pub proof fn lemma_clocks_are_told(parts: Seq<Seq<char>>, id: usize)
    ensures
        clocks_of(parts).contains_key(id) ==> exists|i: int|
            0 <= i < parts.len() && tells_clock(#[trigger] parts[i], id, clocks_of(parts)[id]),
    decreases parts.len(),
{
    if parts.len() > 0 && clocks_of(parts).contains_key(id) {
        let less = parts.drop_last();
        let mhz = clocks_of(parts)[id];
        lemma_clocks_are_told(less, id);
        if tells_clock(parts[parts.len() - 1], id, mhz) {
        } else {
            let i = choose|i: int|
                0 <= i < less.len() && tells_clock(#[trigger] less[i], id, clocks_of(less)[id]);
            assert(less[i] == parts[i]);
        }
    }
}

/// Blocks are parted at the first empty line.
pub proof fn lemma_blocks_are_parted(a: Seq<char>, b: Seq<char>)
    requires
        forall|i: int| 0 <= i < a.len() - 1 ==> !((#[trigger] a[i]) == '\n' && a[i + 1] == '\n'),
        a.len() == 0 || a.last() != '\n',
    ensures
        blocks(a + "\n\n"@ + b) == seq![a] + blocks(b),
        blocks(a) == seq![a],
{
    reveal_strlit("\n\n");
    let all = a + "\n\n"@ + b;
    lemma_gap_behind(a, b);
    assert(all.take(a.len() as int) =~= a);
    assert(all.skip(a.len() as int + 2) =~= b);
    lemma_gap_alone(a);
}

proof fn lemma_gap_behind(a: Seq<char>, b: Seq<char>)
    requires
        forall|i: int| 0 <= i < a.len() - 1 ==> !((#[trigger] a[i]) == '\n' && a[i + 1] == '\n'),
        a.len() == 0 || a.last() != '\n',
    ensures
        first_gap(a + "\n\n"@ + b) == a.len(),
    decreases a.len(),
{
    reveal_strlit("\n\n");
    let all = a + "\n\n"@ + b;
    if a.len() > 0 {
        let rest = a.skip(1);
        assert(all.skip(1) =~= rest + "\n\n"@ + b);
        assert forall|i: int| 0 <= i < rest.len() - 1 implies !((#[trigger] rest[i]) == '\n'
            && rest[i + 1] == '\n') by {
            assert(rest[i] == a[i + 1]);
        }
        if a.len() > 1 {
            assert(a[0] == all[0] && a[1] == all[1]);
        } else {
            assert(all[0] == a[0]);
        }
        lemma_gap_behind(rest, b);
    } else {
        assert(all[0] == '\n' && all[1] == '\n');
    }
}

proof fn lemma_gap_alone(a: Seq<char>)
    requires
        forall|i: int| 0 <= i < a.len() - 1 ==> !((#[trigger] a[i]) == '\n' && a[i + 1] == '\n'),
    ensures
        first_gap(a) == a.len(),
    decreases a.len(),
{
    if a.len() > 1 {
        let rest = a.skip(1);
        assert(!(a[0] == '\n' && a[1] == '\n'));
        assert forall|i: int| 0 <= i < rest.len() - 1 implies !((#[trigger] rest[i]) == '\n'
            && rest[i + 1] == '\n') by {
            assert(rest[i] == a[i + 1]);
        }
        lemma_gap_alone(rest);
    }
}

/// A number that is to be none less than zero, or more than zero, is read as it is written.
pub proof fn lemma_signs_of_numbers(s: Seq<char>)
    ensures
        nonnegative(s) matches Some(number) ==> parsed(s) == Some(number) && number.finite()
            && number.value() >= 0,
        positive(s) matches Some(number) ==> parsed(s) == Some(number) && number.finite()
            && number.value() > 0,
        parsed(s) matches Some(number) ==> (number.finite() && number.value() >= 0 ==> nonnegative(s)
            == Some(number)) && (number.finite() && number.value() > 0 ==> positive(s) == Some(
            number,
        )),
{
    assert(units(0) == 0);
    if let Some(number) = parsed(s) {
        if number.finite() {
            lemma_order_is_numeric(Double::zero(), number);
        }
    }
}

} // verus!
