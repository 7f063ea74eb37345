//! A table of processes: what is in it, in which order, and what is selected.

use crate::accuracy::{is_close, lemma_integer_is_close};
use crate::amounts::{
    amount_text, lemma_amount_is_shown_in_its_unit, lemma_next_unit, push_amount, shows_amount,
};
use crate::arithmetic::lemma_integers;
use crate::double::{lemma_order_is_numeric, Double, FINEST};
use crate::fixed::push_fixed;
use crate::processes::{Process, ProcessData, ProcessSnapshot};
use crate::sorting::{arranged, is_arranged, Arrangement};
use crate::table::{
    lemma_text_irreflexive, lemma_text_total, lemma_text_transitive, precedes, text_less,
};
use crate::text::{
    ascii_lowercase, begins, characters, contains, decimal, ends, holds, is_digit, is_space,
    occurs_at, padded_decimal, push_decimal, push_padded, push_signed, signed, signed_decimal,
    split_whitespace, unsigned, views, words,
};
use crate::writing::{
    is_solid, lemma_decimal_counts, lemma_decimal_reads_back, lemma_fixed_writes_the_number,
    lemma_one_word, lemma_signed_decimal_reads_back, lemma_words_are_parted, writes_number,
};
use std::cmp::Ordering;
use vstd::arithmetic::power::lemma_pow1;
use vstd::arithmetic::power2::pow2;
use vstd::math::abs;
use vstd::prelude::*;
use vstd::std_specs::cmp::PartialOrdSpec;

verus! {

// ---------------------------------------------------------------------------
// Outside functions
// ---------------------------------------------------------------------------

/// A text in lower case: what `str::to_lowercase` of std makes of it.
pub uninterp spec fn lowercase_text(s: Seq<char>) -> Seq<char>;

/// Whether a text is ASCII.
pub open spec fn is_ascii(s: Seq<char>) -> bool {
    forall|i: int| 0 <= i < s.len() ==> (#[trigger] s[i]) < '\u{80}'
}

/// `str::to_lowercase` of std. The text is the one that [`lowercase_text`] names,
/// and in ASCII it is each letter in lower case; what becomes of other characters
/// is left unsaid.
#[verifier::external_body]
fn lowercased(text: &str) -> (result: String)
    ensures
        result@ == lowercase_text(text@),
        is_ascii(text@) ==> result@ == ascii_lowercase(text@),
{
    text.to_lowercase()
}

/// Whether a text, where it is ASCII, has each letter in lower case for its text in
/// lower case.
pub open spec fn lowers_ascii(s: Seq<char>) -> bool {
    is_ascii(s) ==> lowercase_text(s) == ascii_lowercase(s)
}

// ---------------------------------------------------------------------------
// Values as text
// ---------------------------------------------------------------------------

/// What is shown where a value is unknown.
pub open spec fn dash() -> Seq<char> {
    "—"@
}

pub open spec fn finite_or_none(value: Option<Double>) -> Option<Double> {
    match value {
        Some(number) => if number.finite() {
            Some(number)
        } else {
            None
        },
        None => None,
    }
}

fn finite(value: Option<Double>) -> (result: Option<Double>)
    ensures
        result == finite_or_none(value),
{
    match value {
        Some(number) => if number.is_finite() {
            Some(number)
        } else {
            None
        },
        None => None,
    }
}

/// The command of a process; its name where it has none.
pub open spec fn command_shown(process: ProcessData) -> Seq<char> {
    if process.command.len() == 0 {
        process.name
    } else {
        process.command
    }
}

/// The command of a process; its name where it has none.
pub fn command(process: &Process) -> (result: &str)
    ensures
        result@ == command_shown(process@),
{
    let all: Vec<char> = characters(process.command.as_str());
    if all.len() == 0 {
        process.name.as_str()
    } else {
        process.command.as_str()
    }
}

pub open spec fn percent_text(value: Option<Double>) -> Seq<char> {
    match finite_or_none(value) {
        Some(number) => number.fixed(1),
        None => dash(),
    }
}

/// A share with one place.
pub fn percent(value: Option<Double>) -> (result: String)
    ensures
        result@ == percent_text(value),
{
    match finite(value) {
        Some(number) => {
            let mut shown: String = String::new();
            push_fixed(&mut shown, number, 1);
            assert(shown@ =~= number.fixed(1));
            shown
        },
        None => "—".to_owned(),
    }
}

pub open spec fn memory_text(value: Option<u64>) -> Seq<char> {
    match value {
        Some(bytes) => if bytes < 1024 {
            decimal(bytes as nat) + " B"@
        } else {
            amount_text(Double::integer(bytes as nat).quotient(Double::integer(1024)), 1, 6)
        },
        None => dash(),
    }
}

/// An amount of memory in a binary unit.
pub fn memory(value: Option<u64>) -> (result: String)
    ensures
        result@ == memory_text(value),
{
    let bytes: u64 = match value {
        Some(bytes) => bytes,
        None => {
            return "—".to_owned();
        },
    };
    let mut shown: String = String::new();
    if bytes < 1024 {
        push_decimal(&mut shown, bytes);
        shown.append(" B");
        assert(shown@ =~= memory_text(value));
        return shown;
    }
    let amount: Double = Double::from_integer(bytes as u128).div(Double::from_integer(1024));
    push_amount(&mut shown, amount, 1, 6);
    assert(shown@ =~= memory_text(value));
    shown
}

pub open spec fn exact_memory_text(value: Option<u64>) -> Seq<char> {
    match value {
        Some(bytes) => memory_text(value) + " ("@ + decimal(bytes as nat) + " bytes)"@,
        None => dash(),
    }
}

/// An amount of memory in a binary unit and in bytes.
pub fn exact_memory(value: Option<u64>) -> (result: String)
    ensures
        result@ == exact_memory_text(value),
{
    match value {
        Some(bytes) => {
            let mut shown: String = memory(value);
            shown.append(" (");
            push_decimal(&mut shown, bytes);
            shown.append(" bytes)");
            shown
        },
        None => "—".to_owned(),
    }
}

/// Whether a number of seconds is one that can be shown.
pub open spec fn is_duration(seconds: Double) -> bool {
    seconds.finite() && !seconds.less(Double::zero())
}

fn shows_duration(seconds: Double) -> (result: bool)
    ensures
        result == is_duration(seconds),
{
    seconds.is_finite() && !seconds.is_less(Double::from_bits(0))
}

pub open spec fn cpu_time_text(seconds: Double) -> Seq<char> {
    let hundredths = seconds.product(Double::integer(100)).nearest_integer();
    let whole = hundredths / 100;
    if !is_duration(seconds) {
        dash()
    } else if whole >= 3600 {
        decimal(whole / 3600) + ":"@ + padded_decimal(whole / 60 % 60, 2) + ":"@ + padded_decimal(
            whole % 60,
            2,
        )
    } else {
        decimal(whole / 60) + ":"@ + padded_decimal(whole % 60, 2) + "."@ + padded_decimal(
            hundredths % 100,
            2,
        )
    }
}

/// CPU time: minutes, seconds and hundredths, or from an hour on hours, minutes
/// and seconds.
pub fn cpu_time(seconds: Double) -> (result: String)
    ensures
        result@ == cpu_time_text(seconds),
{
    if !shows_duration(seconds) {
        return "—".to_owned();
    }
    let hundredths: u64 = seconds.mul(Double::from_integer(100)).round_to_integer();
    let whole: u64 = hundredths / 100;
    let mut shown: String = String::new();
    if whole >= 3600 {
        push_decimal(&mut shown, whole / 3600);
        shown.append(":");
        push_padded(&mut shown, whole / 60 % 60, 2);
        shown.append(":");
        push_padded(&mut shown, whole % 60, 2);
    } else {
        push_decimal(&mut shown, whole / 60);
        shown.append(":");
        push_padded(&mut shown, whole % 60, 2);
        shown.append(".");
        push_padded(&mut shown, hundredths % 100, 2);
    }
    assert(shown@ =~= cpu_time_text(seconds));
    shown
}

pub open spec fn elapsed_time_text(seconds: Double) -> Seq<char> {
    let whole = seconds.truncated();
    if !is_duration(seconds) {
        dash()
    } else {
        decimal(whole / 86400) + "d "@ + padded_decimal(whole / 3600 % 24, 2) + "h "@
            + padded_decimal(whole / 60 % 60, 2) + "m "@ + padded_decimal(whole % 60, 2) + "s"@
    }
}

/// Days, hours, minutes and seconds.
pub fn elapsed_time(seconds: Double) -> (result: String)
    ensures
        result@ == elapsed_time_text(seconds),
{
    if !shows_duration(seconds) {
        return "—".to_owned();
    }
    let whole: u64 = seconds.truncate();
    let mut shown: String = String::new();
    push_decimal(&mut shown, whole / 86400);
    shown.append("d ");
    push_padded(&mut shown, whole / 3600 % 24, 2);
    shown.append("h ");
    push_padded(&mut shown, whole / 60 % 60, 2);
    shown.append("m ");
    push_padded(&mut shown, whole % 60, 2);
    shown.append("s");
    assert(shown@ =~= elapsed_time_text(seconds));
    shown
}

pub open spec fn state_text(state: char) -> Seq<char> {
    if state == 'R' {
        "Running / runnable"@
    } else if state == 'S' {
        "Sleeping"@
    } else if state == 'D' {
        "Uninterruptible disk sleep"@
    } else if state == 'T' {
        "Stopped"@
    } else if state == 't' {
        "Tracing stop"@
    } else if state == 'Z' {
        "Zombie"@
    } else if state == 'I' {
        "Idle"@
    } else if state == 'X' || state == 'x' {
        "Dead"@
    } else if state == 'W' {
        "Paging / waking"@
    } else if state == 'P' {
        "Parked"@
    } else {
        "Other"@
    }
}

/// The name of a process state.
pub fn state_name(state: char) -> (result: &'static str)
    ensures
        result@ == state_text(state),
{
    match state {
        'R' => "Running / runnable",
        'S' => "Sleeping",
        'D' => "Uninterruptible disk sleep",
        'T' => "Stopped",
        't' => "Tracing stop",
        'Z' => "Zombie",
        'I' => "Idle",
        'X' => "Dead",
        'x' => "Dead",
        'W' => "Paging / waking",
        'P' => "Parked",
        _ => "Other",
    }
}

// ---------------------------------------------------------------------------
// Columns
// ---------------------------------------------------------------------------

/// A column of the table.
#[derive(Clone, Copy, Debug, PartialEq, Eq, Structural)]
pub enum Column {
    Pid,
    User,
    Priority,
    Nice,
    Virtual,
    Resident,
    Shared,
    State,
    Cpu,
    Memory,
    CpuTime,
    Command,
}

impl Column {
    pub const ALL: [Column; 12] = [
        Column::Pid,
        Column::User,
        Column::Priority,
        Column::Nice,
        Column::Virtual,
        Column::Resident,
        Column::Shared,
        Column::State,
        Column::Cpu,
        Column::Memory,
        Column::CpuTime,
        Column::Command,
    ];

    pub open spec fn title_text(self) -> Seq<char> {
        match self {
            Column::Pid => "PID"@,
            Column::User => "USER"@,
            Column::Priority => "PR"@,
            Column::Nice => "NI"@,
            Column::Virtual => "VIRT"@,
            Column::Resident => "RES"@,
            Column::Shared => "SHR"@,
            Column::State => "S"@,
            Column::Cpu => "CPU%"@,
            Column::Memory => "MEM%"@,
            Column::CpuTime => "TIME+"@,
            Column::Command => "COMMAND"@,
        }
    }

    pub fn title(self) -> (result: &'static str)
        ensures
            result@ == self.title_text(),
    {
        match self {
            Column::Pid => "PID",
            Column::User => "USER",
            Column::Priority => "PR",
            Column::Nice => "NI",
            Column::Virtual => "VIRT",
            Column::Resident => "RES",
            Column::Shared => "SHR",
            Column::State => "S",
            Column::Cpu => "CPU%",
            Column::Memory => "MEM%",
            Column::CpuTime => "TIME+",
            Column::Command => "COMMAND",
        }
    }

    pub open spec fn description_text(self) -> Seq<char> {
        match self {
            Column::Pid => "Process ID"@,
            Column::User => "User"@,
            Column::Priority => "Scheduling priority; negative values indicate realtime priority"@,
            Column::Nice => "Nice value; lower values favor the process"@,
            Column::Virtual => "Virtual memory"@,
            Column::Resident => "Resident physical memory"@,
            Column::Shared => "Shared resident memory (approximate)"@,
            Column::State => "Process state"@,
            Column::Cpu => "CPU utilization; 100% equals one logical core"@,
            Column::Memory => "Resident memory as a percentage of physical RAM"@,
            Column::CpuTime => "Accumulated user and system CPU time"@,
            Column::Command => "Command line"@,
        }
    }

    pub fn description(self) -> (result: &'static str)
        ensures
            result@ == self.description_text(),
    {
        match self {
            Column::Pid => "Process ID",
            Column::User => "User",
            Column::Priority => "Scheduling priority; negative values indicate realtime priority",
            Column::Nice => "Nice value; lower values favor the process",
            Column::Virtual => "Virtual memory",
            Column::Resident => "Resident physical memory",
            Column::Shared => "Shared resident memory (approximate)",
            Column::State => "Process state",
            Column::Cpu => "CPU utilization; 100% equals one logical core",
            Column::Memory => "Resident memory as a percentage of physical RAM",
            Column::CpuTime => "Accumulated user and system CPU time",
            Column::Command => "Command line",
        }
    }

    pub open spec fn points_wide(self) -> int {
        match self {
            Column::Pid => 82,
            Column::User => 80,
            Column::Priority => 42,
            Column::Nice => 42,
            Column::Virtual => 82,
            Column::Resident => 82,
            Column::Shared => 82,
            Column::State => 46,
            Column::Cpu => 66,
            Column::Memory => 64,
            Column::CpuTime => 86,
            Column::Command => 210,
        }
    }

    /// The least width of the column, in points.
    pub fn width(self) -> (result: u16)
        ensures
            result == self.points_wide(),
    {
        match self {
            Column::Pid => 82,
            Column::User => 80,
            Column::Priority => 42,
            Column::Nice => 42,
            Column::Virtual => 82,
            Column::Resident => 82,
            Column::Shared => 82,
            Column::State => 46,
            Column::Cpu => 66,
            Column::Memory => 64,
            Column::CpuTime => 86,
            Column::Command => 210,
        }
    }

    /// Whether the largest value of the column comes first when it is chosen.
    pub open spec fn largest_first(self) -> bool {
        ||| self == Column::Virtual
        ||| self == Column::Resident
        ||| self == Column::Shared
        ||| self == Column::Cpu
        ||| self == Column::Memory
        ||| self == Column::CpuTime
    }

    pub fn initial_descending(self) -> (result: bool)
        ensures
            result == self.largest_first(),
    {
        match self {
            Column::Virtual => true,
            Column::Resident => true,
            Column::Shared => true,
            Column::Cpu => true,
            Column::Memory => true,
            Column::CpuTime => true,
            _ => false,
        }
    }

    pub open spec fn value_text(self, process: ProcessData) -> Seq<char> {
        match self {
            Column::Pid => decimal(process.pid as nat),
            Column::User => process.user,
            Column::Priority => signed_decimal(process.priority as int),
            Column::Nice => signed_decimal(process.nice as int),
            Column::Virtual => memory_text(process.virtual_bytes),
            Column::Resident => memory_text(process.resident_bytes),
            Column::Shared => memory_text(process.shared_bytes),
            Column::State => seq![process.state],
            Column::Cpu => percent_text(process.cpu_percent),
            Column::Memory => percent_text(process.memory_percent),
            Column::CpuTime => cpu_time_text(process.cpu_time_secs),
            Column::Command => command_shown(process),
        }
    }

    /// What the column shows of a process.
    pub fn value(self, process: &Process) -> (result: String)
        ensures
            result@ == self.value_text(process@),
    {
        match self {
            Column::Pid => unsigned_text(process.pid as u64),
            Column::User => process.user.clone(),
            Column::Priority => signed_text(process.priority),
            Column::Nice => signed_text(process.nice),
            Column::Virtual => memory(process.virtual_bytes),
            Column::Resident => memory(process.resident_bytes),
            Column::Shared => memory(process.shared_bytes),
            Column::State => {
                let mut shown: String = String::new();
                shown.push(process.state);
                assert(shown@ =~= seq![process.state]);
                shown
            },
            Column::Cpu => percent(process.cpu_percent),
            Column::Memory => percent(process.memory_percent),
            Column::CpuTime => cpu_time(process.cpu_time_secs),
            Column::Command => command(process).to_owned(),
        }
    }
}

fn unsigned_text(value: u64) -> (result: String)
    ensures
        result@ == decimal(value as nat),
{
    let mut shown: String = String::new();
    push_decimal(&mut shown, value);
    assert(shown@ =~= decimal(value as nat));
    shown
}

fn signed_text(value: i64) -> (result: String)
    ensures
        result@ == signed_decimal(value as int),
{
    let mut shown: String = String::new();
    push_signed(&mut shown, value);
    assert(shown@ =~= signed_decimal(value as int));
    shown
}

// ---------------------------------------------------------------------------
// States
// ---------------------------------------------------------------------------

/// Which processes are shown by their states.
#[derive(Clone, Copy, Debug, PartialEq, Eq, Structural)]
pub enum StateFilter {
    All,
    Running,
    Sleeping,
    DiskSleep,
    Stopped,
    Zombie,
    Other,
}

impl StateFilter {
    pub const ALL: [StateFilter; 7] = [
        StateFilter::All,
        StateFilter::Running,
        StateFilter::Sleeping,
        StateFilter::DiskSleep,
        StateFilter::Stopped,
        StateFilter::Zombie,
        StateFilter::Other,
    ];

    pub open spec fn title_text(self) -> Seq<char> {
        match self {
            StateFilter::All => "All states"@,
            StateFilter::Running => "Running (R)"@,
            StateFilter::Sleeping => "Sleeping / idle (S, I)"@,
            StateFilter::DiskSleep => "Disk sleep (D)"@,
            StateFilter::Stopped => "Stopped / tracing (T, t)"@,
            StateFilter::Zombie => "Zombie (Z)"@,
            StateFilter::Other => "Other states"@,
        }
    }

    pub fn title(self) -> (result: &'static str)
        ensures
            result@ == self.title_text(),
    {
        match self {
            StateFilter::All => "All states",
            StateFilter::Running => "Running (R)",
            StateFilter::Sleeping => "Sleeping / idle (S, I)",
            StateFilter::DiskSleep => "Disk sleep (D)",
            StateFilter::Stopped => "Stopped / tracing (T, t)",
            StateFilter::Zombie => "Zombie (Z)",
            StateFilter::Other => "Other states",
        }
    }

    /// The filter that shows a state and no state of another kind.
    pub open spec fn kind_of(state: char) -> Self {
        if state == 'R' {
            StateFilter::Running
        } else if state == 'S' || state == 'I' {
            StateFilter::Sleeping
        } else if state == 'D' {
            StateFilter::DiskSleep
        } else if state == 'T' || state == 't' {
            StateFilter::Stopped
        } else if state == 'Z' {
            StateFilter::Zombie
        } else {
            StateFilter::Other
        }
    }

    pub open spec fn admits(self, state: char) -> bool {
        self == StateFilter::All || self == Self::kind_of(state)
    }

    pub fn for_state(state: char) -> (result: Self)
        ensures
            result == Self::kind_of(state),
    {
        match state {
            'R' => StateFilter::Running,
            'S' => StateFilter::Sleeping,
            'I' => StateFilter::Sleeping,
            'D' => StateFilter::DiskSleep,
            'T' => StateFilter::Stopped,
            't' => StateFilter::Stopped,
            'Z' => StateFilter::Zombie,
            _ => StateFilter::Other,
        }
    }

    pub fn matches(self, state: char) -> (result: bool)
        ensures
            result == self.admits(state),
    {
        self == StateFilter::All || self == Self::for_state(state)
    }
}

/// Every state is shown by exactly one filter besides the one that shows all.
pub proof fn lemma_states_are_parted(state: char, one: StateFilter, other: StateFilter)
    ensures
        StateFilter::All.admits(state),
        StateFilter::kind_of(state) != StateFilter::All,
        StateFilter::kind_of(state).admits(state),
        one != StateFilter::All && other != StateFilter::All && one.admits(state) && other.admits(
            state,
        ) ==> one == other,
{
}

// ---------------------------------------------------------------------------
// Order
// ---------------------------------------------------------------------------

/// What a column sorts a process by: a number that may be missing, or a text.
#[verifier::ext_equal]
pub enum SortKey {
    Number(Option<int>),
    Text(Seq<char>),
}

pub open spec fn optional_number(value: Option<u64>) -> SortKey {
    match value {
        Some(number) => SortKey::Number(Some(number as int)),
        None => SortKey::Number(None),
    }
}

/// A share by where it stands among the numbers; missing where it is none.
pub open spec fn optional_share(value: Option<Double>) -> SortKey {
    match finite_or_none(value) {
        Some(number) => SortKey::Number(Some(number.rank())),
        None => SortKey::Number(None),
    }
}

impl Column {
    /// What the column sorts a process by.
    pub open spec fn key(self, process: ProcessData) -> SortKey {
        match self {
            Column::Pid => SortKey::Number(Some(process.pid as int)),
            Column::User => SortKey::Text(process.user),
            Column::Priority => SortKey::Number(Some(process.priority as int)),
            Column::Nice => SortKey::Number(Some(process.nice as int)),
            Column::Virtual => optional_number(process.virtual_bytes),
            Column::Resident => optional_number(process.resident_bytes),
            Column::Shared => optional_number(process.shared_bytes),
            Column::State => SortKey::Number(Some(process.state as int)),
            Column::Cpu => optional_share(process.cpu_percent),
            Column::Memory => optional_share(process.memory_percent),
            Column::CpuTime => optional_share(Some(process.cpu_time_secs)),
            Column::Command => SortKey::Text(command_shown(process)),
        }
    }
}

/// Whether a key comes before another. A missing number comes last in either
/// direction.
pub open spec fn key_before(a: SortKey, b: SortKey, descending: bool) -> bool {
    match (a, b) {
        (SortKey::Number(Some(x)), SortKey::Number(Some(y))) => if descending {
            y < x
        } else {
            x < y
        },
        (SortKey::Number(Some(_)), SortKey::Number(None)) => true,
        (SortKey::Text(x), SortKey::Text(y)) => if descending {
            text_less(y, x)
        } else {
            text_less(x, y)
        },
        _ => false,
    }
}

/// Whether a process comes before another in the table: by the column and, where
/// that does not tell them apart, by number, whatever the direction.
pub open spec fn row_before(
    a: ProcessData,
    b: ProcessData,
    column: Column,
    descending: bool,
) -> bool {
    let left = column.key(a);
    let right = column.key(b);
    key_before(left, right, descending) || (!key_before(right, left, descending) && a.pid < b.pid)
}

proof fn lemma_key_total(a: ProcessData, b: ProcessData, column: Column, descending: bool)
    ensures
        ({
            let left = column.key(a);
            let right = column.key(b);
            &&& key_before(left, right, descending) || key_before(right, left, descending) || left
                == right
            &&& !(key_before(left, right, descending) && key_before(right, left, descending))
            &&& left == right ==> !key_before(left, right, descending)
        }),
{
    let left = column.key(a);
    let right = column.key(b);
    match (left, right) {
        (SortKey::Text(x), SortKey::Text(y)) => {
            lemma_text_total(x, y);
            lemma_text_irreflexive(x);
        },
        _ => {},
    }
}

proof fn lemma_key_transitive(a: SortKey, b: SortKey, c: SortKey, descending: bool)
    requires
        key_before(a, b, descending),
        key_before(b, c, descending),
    ensures
        key_before(a, c, descending),
{
    match (a, b, c) {
        (SortKey::Text(x), SortKey::Text(y), SortKey::Text(z)) => {
            if descending {
                lemma_text_transitive(z, y, x);
            } else {
                lemma_text_transitive(x, y, z);
            }
        },
        _ => {},
    }
}

/// Of two processes with different numbers exactly one comes before the other.
pub proof fn lemma_rows_are_told_apart(
    a: ProcessData,
    b: ProcessData,
    column: Column,
    descending: bool,
)
    ensures
        !(row_before(a, b, column, descending) && row_before(b, a, column, descending)),
        a.pid != b.pid ==> row_before(a, b, column, descending) || row_before(
            b,
            a,
            column,
            descending,
        ),
{
    lemma_key_total(a, b, column, descending);
}

/// The order of rows is one: what comes before a row that comes before a third
/// comes before that.
pub proof fn lemma_rows_are_ordered(
    a: ProcessData,
    b: ProcessData,
    c: ProcessData,
    column: Column,
    descending: bool,
)
    requires
        row_before(a, b, column, descending),
        row_before(b, c, column, descending),
    ensures
        row_before(a, c, column, descending),
{
    lemma_key_total(a, b, column, descending);
    lemma_key_total(b, c, column, descending);
    lemma_key_total(a, c, column, descending);
    let x = column.key(a);
    let y = column.key(b);
    let z = column.key(c);
    if key_before(x, y, descending) && key_before(y, z, descending) {
        lemma_key_transitive(x, y, z, descending);
    }
}

/// A process without the value that the table is sorted by comes behind one with
/// it, in both directions.
pub proof fn lemma_missing_comes_last(
    a: ProcessData,
    b: ProcessData,
    column: Column,
    descending: bool,
)
    requires
        column.key(a) is Number,
        column.key(a)->Number_0 is Some,
        column.key(b) == SortKey::Number(None),
    ensures
        row_before(a, b, column, descending),
        !row_before(b, a, column, descending),
{
}

/// Processes that the column does not tell apart stand in the order of their
/// numbers, in both directions.
pub proof fn lemma_ties_go_by_pid(
    a: ProcessData,
    b: ProcessData,
    column: Column,
    descending: bool,
)
    requires
        column.key(a) == column.key(b),
        a.pid < b.pid,
    ensures
        row_before(a, b, column, descending),
        !row_before(b, a, column, descending),
{
    lemma_key_total(a, b, column, descending);
}

/// What two tests say of an order.
pub open spec fn told(before: bool, behind: bool) -> Ordering {
    if before {
        Ordering::Less
    } else if behind {
        Ordering::Greater
    } else {
        Ordering::Equal
    }
}

/// An order or its reverse.
pub open spec fn directed_order(order: Ordering, descending: bool) -> Ordering {
    match order {
        Ordering::Less => if descending {
            Ordering::Greater
        } else {
            Ordering::Less
        },
        Ordering::Greater => if descending {
            Ordering::Less
        } else {
            Ordering::Greater
        },
        Ordering::Equal => Ordering::Equal,
    }
}

fn directed(order: Ordering, descending: bool) -> (result: Ordering)
    ensures
        result == directed_order(order, descending),
{
    match order {
        Ordering::Less => if descending {
            Ordering::Greater
        } else {
            Ordering::Less
        },
        Ordering::Greater => if descending {
            Ordering::Less
        } else {
            Ordering::Greater
        },
        Ordering::Equal => Ordering::Equal,
    }
}

/// The order of two values that may be missing. A missing one comes last in
/// either direction; two that cannot be told apart are equal.
pub fn optional_cmp<T: PartialOrd>(left: Option<T>, right: Option<T>, descending: bool) -> (result:
    Ordering)
    ensures
        T::obeys_partial_cmp_spec() ==> result == match (left, right) {
            (Some(a), Some(b)) => directed_order(
                match a.partial_cmp_spec(&b) {
                    Some(order) => order,
                    None => Ordering::Equal,
                },
                descending,
            ),
            (Some(_), None) => Ordering::Less,
            (None, Some(_)) => Ordering::Greater,
            (None, None) => Ordering::Equal,
        },
{
    match (left, right) {
        (Some(a), Some(b)) => {
            let order: Ordering = match a.partial_cmp(&b) {
                Some(order) => order,
                None => Ordering::Equal,
            };
            directed(order, descending)
        },
        (Some(_), None) => Ordering::Less,
        (None, Some(_)) => Ordering::Greater,
        (None, None) => Ordering::Equal,
    }
}

fn compare_texts(a: &str, b: &str) -> (result: Ordering)
    ensures
        result == told(text_less(a@, b@), text_less(b@, a@)),
{
    if precedes(a, b) {
        Ordering::Less
    } else if precedes(b, a) {
        Ordering::Greater
    } else {
        Ordering::Equal
    }
}

/// Where a share stands among the numbers.
fn sortable(value: Option<Double>) -> (result: Option<i64>)
    ensures
        match (result, finite_or_none(value)) {
            (Some(place), Some(number)) => place == number.rank(),
            (None, None) => true,
            _ => false,
        },
{
    match finite(value) {
        Some(number) => Some(number.place()),
        None => None,
    }
}

fn compare_integers(left: i64, right: i64, descending: bool) -> (result: Ordering)
    ensures
        ({
            let a = SortKey::Number(Some(int_of(left)));
            let b = SortKey::Number(Some(int_of(right)));
            result == told(key_before(a, b, descending), key_before(b, a, descending))
        }),
{
    optional_cmp(Some(left), Some(right), descending)
}

fn compare_amounts(left: Option<u64>, right: Option<u64>, descending: bool) -> (result: Ordering)
    ensures
        ({
            let a = optional_number(left);
            let b = optional_number(right);
            result == told(key_before(a, b, descending), key_before(b, a, descending))
        }),
{
    optional_cmp(left, right, descending)
}

fn compare_shares(left: Option<Double>, right: Option<Double>, descending: bool) -> (result:
    Ordering)
    ensures
        ({
            let a = optional_share(left);
            let b = optional_share(right);
            result == told(key_before(a, b, descending), key_before(b, a, descending))
        }),
{
    optional_cmp(sortable(left), sortable(right), descending)
}

fn compare_names(left: &str, right: &str, descending: bool) -> (result: Ordering)
    ensures
        ({
            let a = SortKey::Text(left@);
            let b = SortKey::Text(right@);
            result == told(key_before(a, b, descending), key_before(b, a, descending))
        }),
{
    proof {
        lemma_text_total(left@, right@);
    }
    directed(compare_texts(left, right), descending)
}

spec fn int_of(value: i64) -> int {
    value as int
}

fn pid_number(pid: u32) -> (result: i64)
    ensures
        result == pid,
{
    pid as i64
}

/// The number of a state's character.
fn state_number(state: char) -> (result: i64)
    ensures
        result == state as int,
{
    state as u32 as i64
}

fn compare_keys(left: &Process, right: &Process, column: Column, descending: bool) -> (result:
    Ordering)
    ensures
        ({
            let a = column.key(left@);
            let b = column.key(right@);
            result == told(key_before(a, b, descending), key_before(b, a, descending))
        }),
{
    match column {
        Column::Pid => compare_integers(
            pid_number(left.pid),
            pid_number(right.pid),
            descending,
        ),
        Column::User => compare_names(left.user.as_str(), right.user.as_str(), descending),
        Column::Priority => compare_integers(left.priority, right.priority, descending),
        Column::Nice => compare_integers(left.nice, right.nice, descending),
        Column::Virtual => compare_amounts(left.virtual_bytes, right.virtual_bytes, descending),
        Column::Resident => compare_amounts(left.resident_bytes, right.resident_bytes, descending),
        Column::Shared => compare_amounts(left.shared_bytes, right.shared_bytes, descending),
        Column::State => compare_integers(
            state_number(left.state),
            state_number(right.state),
            descending,
        ),
        Column::Cpu => compare_shares(left.cpu_percent, right.cpu_percent, descending),
        Column::Memory => compare_shares(left.memory_percent, right.memory_percent, descending),
        Column::CpuTime => compare_shares(
            Some(left.cpu_time_secs),
            Some(right.cpu_time_secs),
            descending,
        ),
        Column::Command => compare_names(command(left), command(right), descending),
    }
}

/// The order of two processes in the table.
pub fn compare_processes(left: &Process, right: &Process, column: Column, descending: bool)
    -> (result: Ordering)
    ensures
        result == told(
            row_before(left@, right@, column, descending),
            row_before(right@, left@, column, descending),
        ),
{
    proof {
        lemma_key_total(left@, right@, column, descending);
    }
    match compare_keys(left, right, column, descending) {
        Ordering::Less => Ordering::Less,
        Ordering::Greater => Ordering::Greater,
        Ordering::Equal => if left.pid < right.pid {
            Ordering::Less
        } else if right.pid < left.pid {
            Ordering::Greater
        } else {
            Ordering::Equal
        },
    }
}

/// The order of the table by a column.
#[derive(Clone, Copy, Debug, PartialEq, Eq, Structural)]
pub struct RowOrder {
    pub column: Column,
    pub descending: bool,
}

impl<'a> Arrangement<&'a Process> for RowOrder {
    open spec fn may_precede(&self, a: &'a Process, b: &'a Process) -> bool {
        !row_before(b@, a@, self.column, self.descending)
    }

    proof fn total(&self, a: &'a Process, b: &'a Process) {
        lemma_rows_are_told_apart(a@, b@, self.column, self.descending);
    }

    proof fn transitive(&self, a: &'a Process, b: &'a Process, c: &'a Process) {
        lemma_key_total(a@, b@, self.column, self.descending);
        lemma_key_total(b@, c@, self.column, self.descending);
        lemma_key_total(a@, c@, self.column, self.descending);
        let x = self.column.key(a@);
        let y = self.column.key(b@);
        let z = self.column.key(c@);
        if key_before(x, y, self.descending) && key_before(y, z, self.descending) {
            lemma_key_transitive(x, y, z, self.descending);
        }
    }

    fn can_precede(&self, a: &&'a Process, b: &&'a Process) -> (result: bool) {
        match compare_processes(*a, *b, self.column, self.descending) {
            Ordering::Less => {
                proof {
                    lemma_rows_are_told_apart(a@, b@, self.column, self.descending);
                }
                true
            },
            Ordering::Equal => true,
            Ordering::Greater => false,
        }
    }
}

// ---------------------------------------------------------------------------
// Descriptions
// ---------------------------------------------------------------------------

/// A row of the table in words.
pub open spec fn row_text(process: ProcessData) -> Seq<char> {
    "PID "@ + decimal(process.pid as nat) + ", user "@ + process.user + ", priority "@
        + signed_decimal(process.priority as int) + ", nice "@ + signed_decimal(process.nice as int)
        + ", virtual "@ + memory_text(process.virtual_bytes) + ", resident "@ + memory_text(
        process.resident_bytes,
    ) + ", shared "@ + memory_text(process.shared_bytes) + ", state "@ + state_text(process.state)
        + " ("@ + seq![process.state] + "), CPU "@ + percent_text(process.cpu_percent)
        + " percent, memory "@ + percent_text(process.memory_percent) + " percent, CPU time "@
        + cpu_time_text(process.cpu_time_secs) + ", command "@ + command_shown(process)
        + ". Select for process details."@
}

/// A row of the table in words.
pub fn accessible_row(process: &Process) -> (result: String)
    ensures
        result@ == row_text(process@),
{
    let mut text: String = "PID ".to_owned();
    push_decimal(&mut text, process.pid as u64);
    text.append(", user ");
    text.append(process.user.as_str());
    text.append(", priority ");
    push_signed(&mut text, process.priority);
    text.append(", nice ");
    push_signed(&mut text, process.nice);
    text.append(", virtual ");
    text.append(memory(process.virtual_bytes).as_str());
    text.append(", resident ");
    text.append(memory(process.resident_bytes).as_str());
    text.append(", shared ");
    text.append(memory(process.shared_bytes).as_str());
    text.append(", state ");
    text.append(state_name(process.state));
    text.append(" (");
    let ghost before = text@;
    text.push(process.state);
    assert(text@ =~= before + seq![process.state]);
    text.append("), CPU ");
    text.append(percent(process.cpu_percent).as_str());
    text.append(" percent, memory ");
    text.append(percent(process.memory_percent).as_str());
    text.append(" percent, CPU time ");
    text.append(cpu_time(process.cpu_time_secs).as_str());
    text.append(", command ");
    text.append(command(process));
    text.append(". Select for process details.");
    text
}

pub open spec fn user_line(process: ProcessData) -> Seq<char> {
    "User: "@ + process.user + " · UID: "@ + match process.uid {
        Some(uid) => decimal(uid as nat),
        None => dash(),
    }
}

pub open spec fn state_line(process: ProcessData) -> Seq<char> {
    "State: "@ + state_text(process.state) + " ("@ + seq![process.state] + ")"@
}

pub open spec fn cpu_time_line(seconds: Double) -> Seq<char> {
    if is_duration(seconds) {
        "CPU time: "@ + cpu_time_text(seconds) + " ("@ + seconds.fixed(2) + " seconds)"@
    } else {
        "CPU time: "@ + dash()
    }
}

pub open spec fn elapsed_line(seconds: Option<Double>) -> Seq<char> {
    "Elapsed: "@ + match seconds {
        Some(seconds) => elapsed_time_text(seconds),
        None => dash(),
    }
}

/// What is said of a selected process.
pub open spec fn details_of(process: ProcessData) -> Seq<Seq<char>> {
    seq![
        "Name: "@ + process.name,
        "Command: "@ + command_shown(process),
        user_line(process),
        "Parent PID: "@ + decimal(process.ppid as nat),
        state_line(process),
        "Threads: "@ + decimal(process.threads as nat),
        "Priority: "@ + signed_decimal(process.priority as int),
        "Nice: "@ + signed_decimal(process.nice as int),
        "CPU: "@ + percent_text(process.cpu_percent) + "%"@,
        "Memory: "@ + percent_text(process.memory_percent) + "% of RAM"@,
        cpu_time_line(process.cpu_time_secs),
        elapsed_line(process.elapsed_secs),
        "Virtual memory: "@ + exact_memory_text(process.virtual_bytes),
        "Resident memory: "@ + exact_memory_text(process.resident_bytes),
        "Shared resident memory (approximate): "@ + exact_memory_text(process.shared_bytes),
    ]
}

fn joined(label: &str, value: &str) -> (result: String)
    ensures
        result@ == label@ + value@,
{
    let mut text: String = label.to_owned();
    text.append(value);
    text
}

fn describe_user(process: &Process) -> (result: String)
    ensures
        result@ == user_line(process@),
{
    let mut text: String = joined("User: ", process.user.as_str());
    text.append(" · UID: ");
    match process.uid {
        Some(uid) => push_decimal(&mut text, uid as u64),
        None => text.append("—"),
    }
    text
}

fn describe_state(process: &Process) -> (result: String)
    ensures
        result@ == state_line(process@),
{
    let mut text: String = joined("State: ", state_name(process.state));
    text.append(" (");
    let ghost before = text@;
    text.push(process.state);
    assert(text@ =~= before + seq![process.state]);
    text.append(")");
    text
}

fn describe_cpu_time(seconds: Double) -> (result: String)
    ensures
        result@ == cpu_time_line(seconds),
{
    if !shows_duration(seconds) {
        return joined("CPU time: ", "—");
    }
    let mut text: String = joined("CPU time: ", cpu_time(seconds).as_str());
    text.append(" (");
    push_fixed(&mut text, seconds, 2);
    text.append(" seconds)");
    text
}

fn describe_elapsed(seconds: Option<Double>) -> (result: String)
    ensures
        result@ == elapsed_line(seconds),
{
    match seconds {
        Some(seconds) => joined("Elapsed: ", elapsed_time(seconds).as_str()),
        None => joined("Elapsed: ", "—"),
    }
}

/// What is said of a selected process, line by line.
pub fn details(process: &Process) -> (result: Vec<String>)
    ensures
        views(result@) == details_of(process@),
{
    let mut cpu: String = joined("CPU: ", percent(process.cpu_percent).as_str());
    cpu.append("%");
    let mut share: String = joined("Memory: ", percent(process.memory_percent).as_str());
    share.append("% of RAM");
    let result: Vec<String> = vec![
        joined("Name: ", process.name.as_str()),
        joined("Command: ", command(process)),
        describe_user(process),
        joined("Parent PID: ", unsigned_text(process.ppid as u64).as_str()),
        describe_state(process),
        joined("Threads: ", unsigned_text(process.threads).as_str()),
        joined("Priority: ", signed_text(process.priority).as_str()),
        joined("Nice: ", signed_text(process.nice).as_str()),
        cpu,
        share,
        describe_cpu_time(process.cpu_time_secs),
        describe_elapsed(process.elapsed_secs),
        joined("Virtual memory: ", exact_memory(process.virtual_bytes).as_str()),
        joined("Resident memory: ", exact_memory(process.resident_bytes).as_str()),
        joined(
            "Shared resident memory (approximate): ",
            exact_memory(process.shared_bytes).as_str(),
        ),
    ];
    assert(views(result@) =~= details_of(process@));
    result
}

// ---------------------------------------------------------------------------
// Identity
// ---------------------------------------------------------------------------

/// A process across samples: its number alone may go to another one.
#[derive(Clone, Copy, Debug, PartialEq, Eq, Structural)]
pub struct ProcessKey {
    pub pid: u32,
    pub start_time_ticks: u64,
}

pub open spec fn key_of(process: ProcessData) -> ProcessKey {
    ProcessKey { pid: process.pid, start_time_ticks: process.start_time_ticks }
}

impl<'a> From<&'a Process> for ProcessKey {
    fn from(process: &'a Process) -> (result: Self) {
        ProcessKey { pid: process.pid, start_time_ticks: process.start_time_ticks }
    }
}

impl<'a> vstd::std_specs::convert::FromSpecImpl<&'a Process> for ProcessKey {
    open spec fn obeys_from_spec() -> bool {
        true
    }

    open spec fn from_spec(process: &'a Process) -> Self {
        ProcessKey { pid: process.pid, start_time_ticks: process.start_time_ticks }
    }
}

/// The place of the first process with a key, or the number of processes where
/// there is none.
pub open spec fn place_of(processes: Seq<ProcessData>, key: ProcessKey) -> nat
    decreases processes.len(),
{
    if processes.len() == 0 || key_of(processes[0]) == key {
        0
    } else {
        1 + place_of(processes.skip(1), key)
    }
}

/// The process with a key, if it is still there.
pub fn selected_process(snapshot: &ProcessSnapshot, key: ProcessKey) -> (result: Option<&Process>)
    ensures
        match result {
            Some(process) => {
                let place = place_of(views(snapshot.processes@), key) as int;
                &&& place < snapshot.processes@.len()
                &&& *process == snapshot.processes@[place]
                &&& process.pid == key.pid
                &&& process.start_time_ticks == key.start_time_ticks
            },
            None => forall|i: int|
                0 <= i < snapshot.processes@.len() ==> key_of(
                    (#[trigger] snapshot.processes@[i])@,
                ) != key,
        },
{
    let ghost all = views(snapshot.processes@);
    let mut i: usize = 0;
    assert(all.skip(0) =~= all);
    while i < snapshot.processes.len()
        invariant
            i <= snapshot.processes@.len(),
            all == views(snapshot.processes@),
            place_of(all, key) == i + place_of(all.skip(i as int), key),
            forall|k: int|
                0 <= k < i ==> key_of((#[trigger] snapshot.processes@[k])@) != key,
        decreases snapshot.processes@.len() - i,
    {
        assert(all[i as int] == snapshot.processes@[i as int]@);
        assert(all.skip(i as int).skip(1) =~= all.skip(i + 1));
        if ProcessKey::from(&snapshot.processes[i]) == key {
            return Some(&snapshot.processes[i]);
        }
        i += 1;
    }
    None
}

// ---------------------------------------------------------------------------
// Filters
// ---------------------------------------------------------------------------

/// Whether a text has every one of the terms in it.
pub open spec fn holds_all(text: Seq<char>, terms: Seq<Seq<char>>) -> bool {
    forall|i: int| 0 <= i < terms.len() ==> holds(text, #[trigger] terms[i])
}

/// Whether a text has every one of the terms in it.
pub fn holds_every(text: &str, terms: &Vec<Vec<char>>) -> (result: bool)
    ensures
        result == holds_all(text@, views(terms@)),
{
    let ghost all = views(terms@);
    let searched: Vec<char> = characters(text);
    let mut i: usize = 0;
    while i < terms.len()
        invariant
            i <= terms@.len(),
            all == views(terms@),
            searched@ == text@,
            forall|k: int| 0 <= k < i ==> holds(text@, #[trigger] all[k]),
        decreases terms@.len() - i,
    {
        assert(all[i as int] == terms@[i as int]@);
        if !contains(searched.as_slice(), terms[i].as_slice()) {
            return false;
        }
        i += 1;
    }
    true
}

/// What the terms of a query are looked for in.
pub open spec fn searched_text(process: ProcessData) -> Seq<char> {
    decimal(process.pid as nat) + " "@ + process.user + " "@ + process.name + " "@ + process.command
}

/// Whether terms are looked for in what is known of a process.
pub open spec fn is_searched(
    process: ProcessData,
    terms: Seq<Seq<char>>,
    state: StateFilter,
) -> bool {
    state.admits(process.state) && terms.len() > 0
}

/// Whether ASCII is lowered letter by letter in a query and in all that its terms are
/// looked for in.
pub open spec fn search_lowers_ascii(
    processes: Seq<Process>,
    query: Seq<char>,
    state: StateFilter,
) -> bool {
    &&& lowers_ascii(query)
    &&& forall|i: int|
        0 <= i < processes.len() && is_searched(
            (#[trigger] processes[i])@,
            words(lowercase_text(query)),
            state,
        ) ==> lowers_ascii(searched_text(processes[i]@))
}

/// Whether a process is shown: its state passes the filter, and every term is
/// found in its number, user, name or command, whatever the case of letters.
pub open spec fn is_shown(
    process: ProcessData,
    terms: Seq<Seq<char>>,
    state: StateFilter,
) -> bool {
    state.admits(process.state) && (terms.len() == 0 || holds_all(
        lowercase_text(searched_text(process)),
        terms,
    ))
}

/// The processes that are shown.
pub open spec fn shown_processes(
    processes: Seq<Process>,
    terms: Seq<Seq<char>>,
    state: StateFilter,
) -> Seq<Process>
    decreases processes.len(),
{
    if processes.len() == 0 {
        Seq::empty()
    } else if is_shown(processes.last()@, terms, state) {
        shown_processes(processes.drop_last(), terms, state).push(processes.last())
    } else {
        shown_processes(processes.drop_last(), terms, state)
    }
}

/// The processes that references lead to.
pub open spec fn behind(rows: Seq<&Process>) -> Seq<Process> {
    rows.map_values(|process: &Process| *process)
}

fn shows(process: &Process, terms: &Vec<Vec<char>>, state: StateFilter) -> (result: bool)
    ensures
        result == is_shown(process@, views(terms@), state),
        is_searched(process@, views(terms@), state) ==> lowers_ascii(searched_text(process@)),
{
    if !state.matches(process.state) {
        return false;
    }
    if terms.len() == 0 {
        return true;
    }
    let mut text: String = String::new();
    push_decimal(&mut text, process.pid as u64);
    text.append(" ");
    text.append(process.user.as_str());
    text.append(" ");
    text.append(process.name.as_str());
    text.append(" ");
    text.append(process.command.as_str());
    assert(text@ =~= searched_text(process@));
    let searched: String = lowercased(text.as_str());
    holds_every(searched.as_str(), terms)
}

/// The processes that a query and a filter show.
pub fn filtered_processes<'a>(
    snapshot: &'a ProcessSnapshot,
    query: &str,
    state: StateFilter,
) -> (result: Vec<&'a Process>)
    ensures
        behind(result@) == shown_processes(
            snapshot.processes@,
            words(lowercase_text(query@)),
            state,
        ),
        search_lowers_ascii(snapshot.processes@, query@, state),
{
    let lowered: String = lowercased(query);
    let all: Vec<char> = characters(lowered.as_str());
    let terms: Vec<Vec<char>> = split_whitespace(all.as_slice());
    let ghost wanted = words(lowercase_text(query@));
    let mut result: Vec<&'a Process> = Vec::new();
    let mut i: usize = 0;
    assert(behind(result@) =~= shown_processes(snapshot.processes@.take(0), wanted, state));
    while i < snapshot.processes.len()
        invariant
            i <= snapshot.processes@.len(),
            wanted == views(terms@),
            behind(result@) == shown_processes(snapshot.processes@.take(i as int), wanted, state),
            forall|k: int|
                0 <= k < i && is_searched((#[trigger] snapshot.processes@[k])@, wanted, state)
                    ==> lowers_ascii(searched_text(snapshot.processes@[k]@)),
        decreases snapshot.processes@.len() - i,
    {
        let ghost before = result@;
        let process: &'a Process = &snapshot.processes[i];
        assert(snapshot.processes@.take(i + 1).drop_last() =~= snapshot.processes@.take(i as int));
        if shows(process, &terms, state) {
            result.push(process);
            assert(behind(result@) =~= behind(before).push(*process));
        }
        i += 1;
    }
    assert(snapshot.processes@.take(i as int) =~= snapshot.processes@);
    result
}

/// What is shown are the processes of the sample that pass, and all of those.
pub proof fn lemma_shown(
    processes: Seq<Process>,
    terms: Seq<Seq<char>>,
    state: StateFilter,
    process: Process,
)
    ensures
        shown_processes(processes, terms, state).contains(process) <==> processes.contains(process)
            && is_shown(process@, terms, state),
    decreases processes.len(),
{
    let shown = shown_processes(processes, terms, state);
    if processes.len() == 0 {
        assert(!shown.contains(process));
        assert(!processes.contains(process));
    } else {
        let rest = processes.drop_last();
        let before = shown_processes(rest, terms, state);
        lemma_shown(rest, terms, state, process);
        assert(processes =~= rest.push(processes.last()));
        assert(processes.contains(process) <==> rest.contains(process) || processes.last()
            == process) by {
            broadcast use vstd::seq_lib::group_seq_properties;

        }
        assert(before.push(processes.last()).contains(process) <==> before.contains(process)
            || processes.last() == process) by {
            broadcast use vstd::seq_lib::group_seq_properties;

        }
    }
}

/// Without a query and with every state admitted, all processes are shown.
pub proof fn lemma_no_filter_shows_all(processes: Seq<Process>)
    ensures
        shown_processes(processes, Seq::empty(), StateFilter::All) == processes,
    decreases processes.len(),
{
    if processes.len() > 0 {
        lemma_no_filter_shows_all(processes.drop_last());
        assert(processes =~= processes.drop_last().push(processes.last()));
    } else {
        assert(processes =~= Seq::empty());
    }
}

/// How many processes a filter shows.
pub open spec fn count_admitted(processes: Seq<ProcessData>, state: StateFilter) -> nat
    decreases processes.len(),
{
    if processes.len() == 0 {
        0
    } else {
        count_admitted(processes.drop_last(), state) + if state.admits(processes.last().state) {
            1nat
        } else {
            0nat
        }
    }
}

/// How many processes a filter shows.
pub fn count_in_state(snapshot: &ProcessSnapshot, state: StateFilter) -> (result: usize)
    ensures
        result == count_admitted(views(snapshot.processes@), state),
{
    let ghost all = views(snapshot.processes@);
    let mut count: usize = 0;
    let mut i: usize = 0;
    while i < snapshot.processes.len()
        invariant
            i <= snapshot.processes@.len(),
            all == views(snapshot.processes@),
            count == count_admitted(all.take(i as int), state),
            count <= i,
        decreases snapshot.processes@.len() - i,
    {
        assert(all[i as int] == snapshot.processes@[i as int]@);
        assert(all.take(i + 1).drop_last() =~= all.take(i as int));
        if state.matches(snapshot.processes[i].state) {
            count += 1;
        }
        i += 1;
    }
    assert(all.take(i as int) =~= all);
    count
}

/// The counts of the single states add up to all processes.
pub proof fn lemma_counts_add_up(processes: Seq<ProcessData>)
    ensures
        count_admitted(processes, StateFilter::All) == processes.len(),
        count_admitted(processes, StateFilter::Running) + count_admitted(
            processes,
            StateFilter::Sleeping,
        ) + count_admitted(processes, StateFilter::DiskSleep) + count_admitted(
            processes,
            StateFilter::Stopped,
        ) + count_admitted(processes, StateFilter::Zombie) + count_admitted(
            processes,
            StateFilter::Other,
        ) == processes.len(),
    decreases processes.len(),
{
    if processes.len() > 0 {
        lemma_counts_add_up(processes.drop_last());
    }
}

// ---------------------------------------------------------------------------
// Moving through the table
// ---------------------------------------------------------------------------

/// A key that moves through the table.
#[derive(Clone, Copy, Debug, PartialEq, Eq, Structural)]
pub enum NavigationKey {
    ArrowUp,
    ArrowDown,
    PageUp,
    PageDown,
    Home,
    End,
    /// Any other key.
    Other,
}

pub open spec fn least(a: int, b: int) -> int {
    if a < b {
        a
    } else {
        b
    }
}

pub open spec fn greatest(a: int, b: int) -> int {
    if a < b {
        b
    } else {
        a
    }
}

/// The row that a key leads to.
pub open spec fn target(current: int, length: int, page_rows: int, key: NavigationKey) -> int {
    let last = greatest(length - 1, 0);
    let page = greatest(page_rows, 1);
    match key {
        NavigationKey::ArrowUp => greatest(current - 1, 0),
        NavigationKey::ArrowDown => least(current + 1, last),
        NavigationKey::PageUp => greatest(current - page, 0),
        NavigationKey::PageDown => least(current + page, last),
        NavigationKey::Home => 0,
        NavigationKey::End => last,
        NavigationKey::Other => least(current, last),
    }
}

/// A key leads from a row of the table to one of its rows.
pub proof fn lemma_target_is_a_row(
    current: int,
    length: int,
    page_rows: int,
    key: NavigationKey,
)
    requires
        0 <= current < length,
        0 <= page_rows,
    ensures
        0 <= target(current, length, page_rows, key) < length,
{
}

/// The row that a key leads to.
pub fn navigation_target(current: usize, length: usize, page_rows: usize, key: NavigationKey)
    -> (result: usize)
    ensures
        result == target(current as int, length as int, page_rows as int, key),
{
    let last: usize = length.saturating_sub(1);
    let page: usize = if page_rows > 1 {
        page_rows
    } else {
        1
    };
    let moved: usize = match key {
        NavigationKey::ArrowUp => {
            return current.saturating_sub(1);
        },
        NavigationKey::ArrowDown => current.saturating_add(1),
        NavigationKey::PageUp => {
            return current.saturating_sub(page);
        },
        NavigationKey::PageDown => current.saturating_add(page),
        NavigationKey::Home => 0,
        NavigationKey::End => last,
        NavigationKey::Other => current,
    };
    if moved < last {
        moved
    } else {
        last
    }
}

// ---------------------------------------------------------------------------
// The view
// ---------------------------------------------------------------------------

/// What the table shows, and what is selected in it.
#[derive(Debug)]
pub struct ProcessView {
    pub query: String,
    pub state: StateFilter,
    pub sort: Column,
    pub descending: bool,
    pub selected: Option<ProcessKey>,
    /// The process that has the keyboard, and the row where it was.
    pub focused: Option<(ProcessKey, usize)>,
}

impl Default for ProcessView {
    fn default() -> (result: Self)
        ensures
            result.query@.len() == 0,
            result.state == StateFilter::All,
            result.sort == Column::Cpu,
            result.descending,
            result.selected is None,
            result.focused is None,
    {
        ProcessView {
            query: String::new(),
            state: StateFilter::All,
            sort: Column::Cpu,
            descending: true,
            selected: None,
            focused: None,
        }
    }
}

impl ProcessView {
    /// Whether anything but the sample itself decides what is shown.
    pub fn is_filtered(&self) -> (result: bool)
        ensures
            result == (self.query@.len() > 0 || self.state != StateFilter::All),
    {
        let all: Vec<char> = characters(self.query.as_str());
        all.len() > 0 || self.state != StateFilter::All
    }

    /// Shows all processes again.
    pub fn clear_filters(&mut self)
        ensures
            final(self).query@.len() == 0,
            final(self).state == StateFilter::All,
            final(self).sort == old(self).sort,
            final(self).descending == old(self).descending,
            final(self).selected == old(self).selected,
            final(self).focused == old(self).focused,
    {
        self.query = String::new();
        self.state = StateFilter::All;
    }

    /// Sorts by a column; where that is so already, in the other direction.
    pub fn sort_by(&mut self, column: Column)
        ensures
            final(self).sort == column,
            final(self).descending == if old(self).sort == column {
                !old(self).descending
            } else {
                column.largest_first()
            },
            final(self).query == old(self).query,
            final(self).state == old(self).state,
            final(self).selected == old(self).selected,
            final(self).focused == old(self).focused,
    {
        if self.sort == column {
            self.descending = !self.descending;
        } else {
            self.sort = column;
            self.descending = column.initial_descending();
        }
    }

    /// What the control above a column says.
    pub open spec fn sort_text(self, column: Column) -> Seq<char> {
        "Sort by "@ + column.description_text() + if self.sort != column {
            ""@
        } else if self.descending {
            "; currently descending"@
        } else {
            "; currently ascending"@
        }
    }

    /// What the control above a column says.
    pub fn sort_label(&self, column: Column) -> (result: String)
        ensures
            result@ == self.sort_text(column),
    {
        let mut text: String = joined("Sort by ", column.description());
        text.append(
            if self.sort != column {
                ""
            } else if self.descending {
                "; currently descending"
            } else {
                "; currently ascending"
            },
        );
        text
    }

    /// How much is shown, and in which order.
    pub open spec fn status_text(self, shown: nat, total: nat) -> Seq<char> {
        decimal(shown) + " of "@ + decimal(total) + " processes · Sorted by "@
            + self.sort.title_text() + if self.descending {
            " descending"@
        } else {
            " ascending"@
        }
    }

    /// How much is shown, and in which order.
    pub fn status(&self, shown: usize, total: usize) -> (result: String)
        ensures
            result@ == self.status_text(shown as nat, total as nat),
    {
        let mut text: String = unsigned_text(shown as u64);
        text.append(" of ");
        push_decimal(&mut text, total as u64);
        text.append(" processes · Sorted by ");
        text.append(self.sort.title());
        if self.descending {
            text.append(" descending");
        } else {
            text.append(" ascending");
        }
        text
    }

    /// Selects a process.
    pub fn select(&mut self, key: ProcessKey)
        ensures
            *final(self) == (ProcessView { selected: Some(key), ..*old(self) }),
    {
        self.selected = Some(key);
    }

    /// Selects no process.
    pub fn clear_selection(&mut self)
        ensures
            *final(self) == (ProcessView { selected: None, ..*old(self) }),
    {
        self.selected = None;
    }

    /// Gives a process the keyboard.
    pub fn focus(&mut self, key: ProcessKey, row: usize)
        ensures
            *final(self) == (ProcessView { focused: Some((key, row)), ..*old(self) }),
    {
        self.focused = Some((key, row));
    }

    /// The rows of the table: the processes that are shown, in order.
    pub fn rows<'a>(&self, snapshot: &'a ProcessSnapshot) -> (result: Vec<&'a Process>)
        ensures
            is_arranged(
                result@,
                &(RowOrder { column: self.sort, descending: self.descending }),
            ),
            behind(result@).to_multiset() == shown_processes(
                snapshot.processes@,
                words(lowercase_text(self.query@)),
                self.state,
            ).to_multiset(),
            search_lowers_ascii(snapshot.processes@, self.query@, self.state),
    {
        let found: Vec<&'a Process> = filtered_processes(
            snapshot,
            self.query.as_str(),
            self.state,
        );
        let order: RowOrder = RowOrder { column: self.sort, descending: self.descending };
        let result: Vec<&'a Process> = arranged(&found, &order);
        proof {
            lemma_behind_multiset(result@, found@);
        }
        result
    }

    /// Moves the keyboard to where a key leads or, without one, to where a new
    /// order has put the process that has it. Tells the process and the row.
    pub fn follow(
        &mut self,
        rows: &Vec<&Process>,
        pressed: Option<NavigationKey>,
        page_rows: usize,
    ) -> (result: Option<(ProcessKey, usize)>)
        ensures
            final(self).query == old(self).query,
            final(self).state == old(self).state,
            final(self).sort == old(self).sort,
            final(self).descending == old(self).descending,
            final(self).focused == old(self).focused,
            result == followed(views(rows@), old(self).focused, pressed, page_rows),
            final(self).selected == match (result, pressed) {
                (Some((key, _)), Some(_)) => Some(key),
                _ => old(self).selected,
            },
    {
        let (key, before): (ProcessKey, usize) = match self.focused {
            Some(focused) => focused,
            None => {
                return None;
            },
        };
        let ghost all = views(rows@);
        let mut index: usize = 0;
        assert(all.skip(0) =~= all);
        while index < rows.len() && ProcessKey::from(rows[index]) != key
            invariant
                index <= rows@.len(),
                all == views(rows@),
                place_of(all, key) == index + place_of(all.skip(index as int), key),
            decreases rows@.len() - index,
        {
            assert(all[index as int] == rows@[index as int]@);
            assert(all.skip(index as int).skip(1) =~= all.skip(index + 1));
            index += 1;
        }
        assert(index < rows@.len() ==> all[index as int] == rows@[index as int]@);
        assert(place_of(all, key) == index);
        if index >= rows.len() {
            return None;
        }
        match pressed {
            Some(pressed_key) => {
                let next: usize = navigation_target(index, rows.len(), page_rows, pressed_key);
                assert(all[next as int] == rows@[next as int]@);
                let chosen: ProcessKey = ProcessKey::from(rows[next]);
                self.selected = Some(chosen);
                Some((chosen, next))
            },
            None => if index != before {
                Some((key, index))
            } else {
                None
            },
        }
    }
}

/// Where the keyboard moves.
pub open spec fn followed(
    rows: Seq<ProcessData>,
    focused: Option<(ProcessKey, usize)>,
    pressed: Option<NavigationKey>,
    page_rows: usize,
) -> Option<(ProcessKey, usize)> {
    match focused {
        None => None,
        Some((key, before)) => {
            let index = place_of(rows, key) as int;
            if index >= rows.len() {
                None
            } else {
                match pressed {
                    Some(pressed_key) => {
                        let next = target(
                            index,
                            rows.len() as int,
                            page_rows as int,
                            pressed_key,
                        );
                        Some((key_of(rows[next]), next as usize))
                    },
                    None => if index != before {
                        Some((key, index as usize))
                    } else {
                        None
                    },
                }
            }
        },
    }
}

proof fn lemma_behind_multiset(a: Seq<&Process>, b: Seq<&Process>)
    requires
        a.to_multiset() == b.to_multiset(),
    ensures
        behind(a).to_multiset() == behind(b).to_multiset(),
    decreases a.len(),
{
    broadcast use vstd::seq_lib::group_to_multiset_ensures;

    vstd::seq_lib::to_multiset_len(a);
    vstd::seq_lib::to_multiset_len(b);
    if a.len() == 0 {
        assert(behind(a) =~= behind(b));
    } else {
        let one = a.last();
        vstd::seq_lib::to_multiset_contains(a, one);
        vstd::seq_lib::to_multiset_contains(b, one);
        assert(a.contains(one));
        let i = choose|i: int| 0 <= i < b.len() && b[i] == one;
        let less = a.drop_last();
        assert(a =~= less.push(one));
        vstd::seq_lib::to_multiset_build(less, one);
        vstd::seq_lib::to_multiset_remove(b, i);
        assert(less.to_multiset() =~= b.remove(i).to_multiset());
        lemma_behind_multiset(less, b.remove(i));
        assert(behind(a) =~= behind(less).push(*one));
        vstd::seq_lib::to_multiset_build(behind(less), *one);
        assert(behind(b.remove(i)) =~= behind(b).remove(i));
        vstd::seq_lib::to_multiset_remove(behind(b), i);
        assert(behind(b).to_multiset() =~= behind(b.remove(i)).to_multiset().insert(*one));
    }
}

/// Whether a column puts a process before another where the smallest comes first, and behind
/// it where the largest does.
pub open spec fn sorts(a: ProcessData, b: ProcessData, column: Column) -> bool {
    &&& row_before(a, b, column, false) && !row_before(b, a, column, false)
    &&& row_before(b, a, column, true) && !row_before(a, b, column, true)
}

/// Whether two numbers that may be missing are both there, the first the smaller one.
pub open spec fn amounts_rise(a: Option<u64>, b: Option<u64>) -> bool {
    a is Some && b is Some && a->0 < b->0
}

/// Whether two numbers that may be missing are both finite, the first the smaller one.
pub open spec fn shares_rise(a: Option<Double>, b: Option<Double>) -> bool {
    &&& a is Some && a->0.finite()
    &&& b is Some && b->0.finite()
    &&& a->0.value() < b->0.value()
}

/// Each column sorts by the field that it shows and by no other: of two processes that
/// differ in it, the one with the smaller value stands first in ascending order and last in
/// descending order, whatever their other fields are.
pub proof fn lemma_columns_sort_by_what_they_show(a: ProcessData, b: ProcessData)
    ensures
        a.pid < b.pid ==> sorts(a, b, Column::Pid),
        text_less(a.user, b.user) ==> sorts(a, b, Column::User),
        a.priority < b.priority ==> sorts(a, b, Column::Priority),
        a.nice < b.nice ==> sorts(a, b, Column::Nice),
        amounts_rise(a.virtual_bytes, b.virtual_bytes) ==> sorts(a, b, Column::Virtual),
        amounts_rise(a.resident_bytes, b.resident_bytes) ==> sorts(a, b, Column::Resident),
        amounts_rise(a.shared_bytes, b.shared_bytes) ==> sorts(a, b, Column::Shared),
        (a.state as int) < (b.state as int) ==> sorts(a, b, Column::State),
        shares_rise(a.cpu_percent, b.cpu_percent) ==> sorts(a, b, Column::Cpu),
        shares_rise(a.memory_percent, b.memory_percent) ==> sorts(a, b, Column::Memory),
        shares_rise(Some(a.cpu_time_secs), Some(b.cpu_time_secs)) ==> sorts(a, b, Column::CpuTime),
        a.command.len() > 0 && b.command.len() > 0 && text_less(a.command, b.command) ==> sorts(
            a,
            b,
            Column::Command,
        ),
        a.command.len() == 0 && b.command.len() > 0 && text_less(a.name, b.command) ==> sorts(
            a,
            b,
            Column::Command,
        ),
        a.command.len() > 0 && b.command.len() == 0 && text_less(a.command, b.name) ==> sorts(
            a,
            b,
            Column::Command,
        ),
        a.command.len() == 0 && b.command.len() == 0 && text_less(a.name, b.name) ==> sorts(
            a,
            b,
            Column::Command,
        ),
{
    lemma_text_total(a.user, b.user);
    lemma_text_total(command_shown(a), command_shown(b));
    if shares_rise(a.cpu_percent, b.cpu_percent) {
        lemma_order_is_numeric(a.cpu_percent->0, b.cpu_percent->0);
    }
    if shares_rise(a.memory_percent, b.memory_percent) {
        lemma_order_is_numeric(a.memory_percent->0, b.memory_percent->0);
    }
    if shares_rise(Some(a.cpu_time_secs), Some(b.cpu_time_secs)) {
        lemma_order_is_numeric(a.cpu_time_secs, b.cpu_time_secs);
    }
}

/// Whether a column puts a process before another in both directions.
pub open spec fn always_before(a: ProcessData, b: ProcessData, column: Column) -> bool {
    &&& row_before(a, b, column, false) && !row_before(b, a, column, false)
    &&& row_before(a, b, column, true) && !row_before(b, a, column, true)
}

/// Whether a number is there and another one is not.
pub open spec fn only_first_is_known(a: Option<Double>, b: Option<Double>) -> bool {
    &&& a is Some && a->0.finite()
    &&& b is None || !b->0.finite()
}

/// A process whose field is missing comes behind one whose field is not, in both directions,
/// in the column that shows the field.
pub proof fn lemma_unknown_fields_come_last(a: ProcessData, b: ProcessData)
    ensures
        a.virtual_bytes is Some && b.virtual_bytes is None ==> always_before(a, b, Column::Virtual),
        a.resident_bytes is Some && b.resident_bytes is None ==> always_before(
            a,
            b,
            Column::Resident,
        ),
        a.shared_bytes is Some && b.shared_bytes is None ==> always_before(a, b, Column::Shared),
        only_first_is_known(a.cpu_percent, b.cpu_percent) ==> always_before(a, b, Column::Cpu),
        only_first_is_known(a.memory_percent, b.memory_percent) ==> always_before(
            a,
            b,
            Column::Memory,
        ),
        only_first_is_known(Some(a.cpu_time_secs), Some(b.cpu_time_secs)) ==> always_before(
            a,
            b,
            Column::CpuTime,
        ),
{
}

// ---------------------------------------------------------------------------
// What is shown can be read
// ---------------------------------------------------------------------------

/// Each column shows the field that it is of, so that it can be read again, and a dash where
/// the field is missing.
pub proof fn lemma_columns_show_their_fields(process: ProcessData)
    ensures
        unsigned(Column::Pid.value_text(process), u32::MAX as nat) == Some(process.pid as nat),
        Column::User.value_text(process) == process.user,
        signed(Column::Priority.value_text(process)) == Some(process.priority as int),
        signed(Column::Nice.value_text(process)) == Some(process.nice as int),
        Column::Virtual.value_text(process) == memory_text(process.virtual_bytes),
        Column::Resident.value_text(process) == memory_text(process.resident_bytes),
        Column::Shared.value_text(process) == memory_text(process.shared_bytes),
        Column::State.value_text(process) == seq![process.state],
        process.cpu_percent is Some && process.cpu_percent->0.finite() ==> writes_number(
            Column::Cpu.value_text(process),
            process.cpu_percent->0,
            1,
        ),
        process.cpu_percent is None ==> Column::Cpu.value_text(process) == "—"@,
        process.memory_percent is Some && process.memory_percent->0.finite() ==> writes_number(
            Column::Memory.value_text(process),
            process.memory_percent->0,
            1,
        ),
        process.memory_percent is None ==> Column::Memory.value_text(process) == "—"@,
        Column::CpuTime.value_text(process) == cpu_time_text(process.cpu_time_secs),
        process.command.len() > 0 ==> Column::Command.value_text(process) == process.command,
        process.command.len() == 0 ==> Column::Command.value_text(process) == process.name,
{
    lemma_decimal_reads_back(process.pid as nat, u32::MAX as nat);
    lemma_signed_decimal_reads_back(process.priority as int);
    lemma_signed_decimal_reads_back(process.nice as int);
    if let Some(share) = process.cpu_percent {
        if share.finite() {
            lemma_fixed_writes_the_number(share, 1);
        }
    }
    if let Some(share) = process.memory_percent {
        if share.finite() {
            lemma_fixed_writes_the_number(share, 1);
        }
    }
}

/// Memory below a kibibyte is shown in bytes, exactly.
pub proof fn lemma_small_memory_is_exact(bytes: u64)
    requires
        bytes < 1024,
    ensures
        words(memory_text(Some(bytes))).len() == 2,
        unsigned(words(memory_text(Some(bytes)))[0], u64::MAX as nat) == Some(bytes as nat),
        words(memory_text(Some(bytes)))[1] == "B"@,
{
    let number = decimal(bytes as nat);
    reveal_strlit(" B");
    reveal_strlit("B");
    lemma_decimal_counts(bytes as nat);
    lemma_decimal_reads_back(bytes as nat, u64::MAX as nat);
    assert(is_solid(number)) by {
        assert forall|i: int| 0 <= i < number.len() implies !is_space(#[trigger] number[i]) by {
            assert(is_digit(number[i]));
        }
    }
    assert(memory_text(Some(bytes)) =~= number.push(' ') + "B"@);
    lemma_words_are_parted(number, ' ', "B"@);
    lemma_one_word(number);
    lemma_one_word("B"@);
}

/// Larger memory is shown in the unit that it has 1 to 1024 of.
pub proof fn lemma_memory_is_shown_in_its_unit(bytes: u64) -> (result: (nat, Double))
    requires
        bytes >= 1024,
    ensures
        ({
            let (unit, shown) = result;
            let one = pow2(FINEST as nat);
            &&& 1 <= unit <= 6
            &&& shows_amount(
                memory_text(Some(bytes)),
                Double::integer(bytes as nat).value(),
                unit,
                shown,
            )
            &&& unit < 6 ==> abs(shown.value()) < 1024 * one
            &&& abs(shown.value()) >= one
            &&& is_close(Double::integer(bytes as nat).value(), (bytes * one) as int)
        }),
{
    let all = Double::integer(bytes as nat);
    let amount = all.quotient(Double::integer(1024));
    let one = pow2(FINEST as nat);
    lemma_integers(1024, bytes as nat);
    lemma_integers(bytes as nat, bytes as nat);
    lemma_integer_is_close(bytes as nat);
    lemma_next_unit(all);
    lemma_pow1(1024);
    let (unit, shown) = lemma_amount_is_shown_in_its_unit(amount, 1, 6);
    assert(abs(shown.value()) >= one) by {
        if unit == 1 {
            assert(shown.value() * 1024 == amount.value() * 1024);
        }
    }
    (unit, shown)
}

/// Bytes are told beside the unit, exactly.
pub proof fn lemma_exact_memory(bytes: u64)
    ensures
        exact_memory_text(Some(bytes)) == memory_text(Some(bytes)) + " ("@ + decimal(bytes as nat)
            + " bytes)"@,
        unsigned(decimal(bytes as nat), u64::MAX as nat) == Some(bytes as nat),
{
    lemma_decimal_reads_back(bytes as nat, u64::MAX as nat);
}

/// CPU time is told in hours, minutes and seconds, or in minutes, seconds and hundredths where
/// it is less than an hour; it is rounded to the nearest hundredth of a second.
pub proof fn lemma_cpu_time_is_told(
    seconds: Double,
    hours: nat,
    minutes: nat,
    rest: nat,
    hundredths: nat,
)
    requires
        seconds.finite(),
        !seconds.negative(),
        minutes < 60,
        rest < 60,
        hundredths < 100,
        seconds.product(Double::integer(100)).nearest_integer() == ((hours * 60 + minutes) * 60
            + rest) * 100 + hundredths,
    ensures
        cpu_time_text(seconds) == if hours > 0 {
            decimal(hours) + ":"@ + padded_decimal(minutes, 2) + ":"@ + padded_decimal(rest, 2)
        } else {
            decimal(minutes) + ":"@ + padded_decimal(rest, 2) + "."@ + padded_decimal(hundredths, 2)
        },
{
    let all = ((hours * 60 + minutes) * 60 + rest) * 100 + hundredths;
    let whole = all / 100;
    assert(whole == (hours * 60 + minutes) * 60 + rest);
    assert(whole / 3600 == hours);
    assert(whole / 60 == hours * 60 + minutes);
    assert(whole / 60 % 60 == minutes);
    assert(whole % 60 == rest);
    assert(all % 100 == hundredths);
}

/// The time that a process has been there is told in days, hours, minutes and seconds; what is
/// less than a second is left out.
pub proof fn lemma_elapsed_time_is_told(
    seconds: Double,
    days: nat,
    hours: nat,
    minutes: nat,
    rest: nat,
)
    requires
        seconds.finite(),
        !seconds.negative(),
        hours < 24,
        minutes < 60,
        rest < 60,
        seconds.truncated() == ((days * 24 + hours) * 60 + minutes) * 60 + rest,
    ensures
        elapsed_time_text(seconds) == decimal(days) + "d "@ + padded_decimal(hours, 2) + "h "@
            + padded_decimal(minutes, 2) + "m "@ + padded_decimal(rest, 2) + "s"@,
{
    let whole = seconds.truncated();
    assert(whole / 86400 == days);
    assert(whole / 3600 == days * 24 + hours);
    assert(whole / 3600 % 24 == hours);
    assert(whole / 60 == (days * 24 + hours) * 60 + minutes);
    assert(whole / 60 % 60 == minutes);
    assert(whole % 60 == rest);
}

/// What is said of a selected process depends, line by line, on the field that the line is
/// of alone.
pub proof fn lemma_details_are_of_their_fields(a: ProcessData, b: ProcessData)
    ensures
        details_of(a).len() == 15,
        a.name == b.name ==> details_of(a)[0] == details_of(b)[0],
        a.name == b.name && a.command == b.command ==> details_of(a)[1] == details_of(b)[1],
        a.user == b.user && a.uid == b.uid ==> details_of(a)[2] == details_of(b)[2],
        a.ppid == b.ppid ==> details_of(a)[3] == details_of(b)[3],
        a.state == b.state ==> details_of(a)[4] == details_of(b)[4],
        a.threads == b.threads ==> details_of(a)[5] == details_of(b)[5],
        a.priority == b.priority ==> details_of(a)[6] == details_of(b)[6],
        a.nice == b.nice ==> details_of(a)[7] == details_of(b)[7],
        a.cpu_percent == b.cpu_percent ==> details_of(a)[8] == details_of(b)[8],
        a.memory_percent == b.memory_percent ==> details_of(a)[9] == details_of(b)[9],
        a.cpu_time_secs == b.cpu_time_secs ==> details_of(a)[10] == details_of(b)[10],
        a.elapsed_secs == b.elapsed_secs ==> details_of(a)[11] == details_of(b)[11],
        a.virtual_bytes == b.virtual_bytes ==> details_of(a)[12] == details_of(b)[12],
        a.resident_bytes == b.resident_bytes ==> details_of(a)[13] == details_of(b)[13],
        a.shared_bytes == b.shared_bytes ==> details_of(a)[14] == details_of(b)[14],
{
}

// ---------------------------------------------------------------------------
// Filters and keys
// ---------------------------------------------------------------------------

/// Which states each filter shows.
pub proof fn lemma_states_of_filters(state: char)
    ensures
        StateFilter::All.admits(state),
        StateFilter::Running.admits(state) <==> state == 'R',
        StateFilter::Sleeping.admits(state) <==> state == 'S' || state == 'I',
        StateFilter::DiskSleep.admits(state) <==> state == 'D',
        StateFilter::Stopped.admits(state) <==> state == 'T' || state == 't',
        StateFilter::Zombie.admits(state) <==> state == 'Z',
        StateFilter::Other.admits(state) <==> state != 'R' && state != 'S' && state != 'I' && state
            != 'D' && state != 'T' && state != 't' && state != 'Z',
{
}

/// A filter counts each process that it shows once.
pub proof fn lemma_each_process_counts_once(
    processes: Seq<ProcessData>,
    process: ProcessData,
    state: StateFilter,
)
    ensures
        count_admitted(Seq::empty(), state) == 0,
        count_admitted(processes.push(process), state) == count_admitted(processes, state)
            + if state.admits(process.state) {
            1nat
        } else {
            0nat
        },
{
    assert(processes.push(process).drop_last() =~= processes);
}

proof fn lemma_holds_part(a: Seq<char>, part: Seq<char>, front: Seq<char>, back: Seq<char>)
    requires
        holds(a, part),
    ensures
        holds(front + a + back, part),
{
    let at = choose|at: int| occurs_at(a, part, at);
    let all = front + a + back;
    assert(all.subrange(front.len() + at, front.len() + at + part.len()) =~= a.subrange(
        at,
        at + part.len(),
    ));
    assert(occurs_at(all, part, front.len() + at));
}

/// What holds no space and is found in two texts with a space between them is found in one of
/// them.
proof fn lemma_holds_in_one(a: Seq<char>, b: Seq<char>, part: Seq<char>)
    requires
        !part.contains(' '),
        holds(a.push(' ') + b, part),
    ensures
        holds(a, part) || holds(b, part),
{
    let all = a.push(' ') + b;
    let at = choose|at: int| occurs_at(all, part, at);
    if at + part.len() <= a.len() {
        assert(a.subrange(at, at + part.len()) =~= all.subrange(at, at + part.len()));
        assert(occurs_at(a, part, at));
    } else if at > a.len() {
        let from = at - a.len() - 1;
        assert(b.subrange(from, from + part.len()) =~= all.subrange(at, at + part.len()));
        assert(occurs_at(b, part, from));
    } else if part.len() == 0 {
        assert(b.subrange(0, 0) =~= part);
        assert(occurs_at(b, part, 0));
    } else {
        let here = a.len() - at;
        assert(part[here] == all.subrange(at, at + part.len())[here]);
        assert(all[a.len() as int] == ' ');
        assert(part[here] == ' ');
    }
}

/// Whether a term is found in the number, the user, the name or the command of a process,
/// whatever the case of ASCII letters.
pub open spec fn finds(process: ProcessData, term: Seq<char>) -> bool {
    ||| holds(ascii_lowercase(decimal(process.pid as nat)), term)
    ||| holds(ascii_lowercase(process.user), term)
    ||| holds(ascii_lowercase(process.name), term)
    ||| holds(ascii_lowercase(process.command), term)
}

/// A term that holds no space is looked for in the number, the user, the name and the command
/// of a process, each for itself.
pub proof fn lemma_term_is_found_in_one_field(process: ProcessData, term: Seq<char>)
    requires
        !term.contains(' '),
    ensures
        holds(ascii_lowercase(searched_text(process)), term) <==> finds(process, term),
{
    let p = ascii_lowercase(decimal(process.pid as nat));
    let u = ascii_lowercase(process.user);
    let n = ascii_lowercase(process.name);
    let c = ascii_lowercase(process.command);
    let all = ascii_lowercase(searched_text(process));
    reveal_strlit(" ");
    let last = n.push(' ') + c;
    let behind = u.push(' ') + last;
    assert(all =~= p.push(' ') + behind);
    if holds(all, term) {
        lemma_holds_in_one(p, behind, term);
        if !holds(p, term) {
            lemma_holds_in_one(u, last, term);
            if !holds(u, term) {
                lemma_holds_in_one(n, c, term);
            }
        }
    }
    if holds(p, term) {
        assert(all =~= Seq::<char>::empty() + p + (seq![' '] + behind));
        lemma_holds_part(p, term, Seq::empty(), seq![' '] + behind);
    }
    if holds(u, term) {
        assert(all =~= p.push(' ') + u + (seq![' '] + last));
        lemma_holds_part(u, term, p.push(' '), seq![' '] + last);
    }
    if holds(n, term) {
        assert(all =~= (p.push(' ') + u.push(' ')) + n + (seq![' '] + c));
        lemma_holds_part(n, term, p.push(' ') + u.push(' '), seq![' '] + c);
    }
    if holds(c, term) {
        assert(all =~= (p.push(' ') + u.push(' ') + n.push(' ')) + c + Seq::<char>::empty());
        lemma_holds_part(c, term, p.push(' ') + u.push(' ') + n.push(' '), Seq::empty());
    }
}

/// A process is shown exactly where its state passes and every term is found in one of its
/// fields, where all that it is known by is ASCII.
pub proof fn lemma_which_processes_are_shown(
    process: ProcessData,
    terms: Seq<Seq<char>>,
    state: StateFilter,
)
    requires
        lowercase_text(searched_text(process)) == ascii_lowercase(searched_text(process)),
        forall|i: int| 0 <= i < terms.len() ==> !(#[trigger] terms[i]).contains(' '),
    ensures
        is_shown(process, terms, state) <==> state.admits(process.state) && forall|i: int|
            0 <= i < terms.len() ==> finds(process, #[trigger] terms[i]),
{
    let text = ascii_lowercase(searched_text(process));
    assert forall|i: int| 0 <= i < terms.len() implies holds(text, #[trigger] terms[i]) == finds(
        process,
        terms[i],
    ) by {
        lemma_term_is_found_in_one_field(process, terms[i]);
    }
    assert(holds_all(text, terms) <==> forall|i: int|
        0 <= i < terms.len() ==> finds(process, #[trigger] terms[i]));
}

/// A further term never shows a process that was not shown before.
pub proof fn lemma_more_terms_show_less(
    process: ProcessData,
    terms: Seq<Seq<char>>,
    term: Seq<char>,
    state: StateFilter,
)
    requires
        is_shown(process, terms.push(term), state),
    ensures
        is_shown(process, terms, state),
        is_shown(process, seq![term], state),
{
    let text = lowercase_text(searched_text(process));
    assert(terms.push(term)[terms.len() as int] == term);
    assert(holds(text, term));
    assert forall|i: int| 0 <= i < terms.len() implies holds(text, #[trigger] terms[i]) by {
        assert(terms.push(term)[i] == terms[i]);
    }
}

/// The row that a number of presses of the arrow down leads to.
pub open spec fn pressed_down(current: int, length: int, presses: nat) -> int
    decreases presses,
{
    if presses == 0 {
        current
    } else {
        target(pressed_down(current, length, (presses - 1) as nat), length, 1, NavigationKey::ArrowDown)
    }
}

/// The row that a number of presses of the arrow up leads to.
pub open spec fn pressed_up(current: int, length: int, presses: nat) -> int
    decreases presses,
{
    if presses == 0 {
        current
    } else {
        target(pressed_up(current, length, (presses - 1) as nat), length, 1, NavigationKey::ArrowUp)
    }
}

/// The arrow up undoes the arrow down, but for the last row, and the arrow down the arrow up,
/// but for the first.
pub proof fn lemma_arrows_undo_each_other(current: int, length: int, page_rows: int)
    requires
        0 <= current < length,
    ensures
        current < length - 1 ==> target(current, length, page_rows, NavigationKey::ArrowDown)
            == current + 1,
        current > 0 ==> target(current, length, page_rows, NavigationKey::ArrowUp) == current - 1,
        target(length - 1, length, page_rows, NavigationKey::ArrowDown) == length - 1,
        target(0, length, page_rows, NavigationKey::ArrowUp) == 0,
        target(current, length, page_rows, NavigationKey::Home) == 0,
        target(current, length, page_rows, NavigationKey::End) == length - 1,
        target(current, length, page_rows, NavigationKey::Other) == current,
{
}

/// A page is as many presses of an arrow as it has rows, and one at least.
pub proof fn lemma_page_is_many_arrows(current: int, length: int, page_rows: nat)
    requires
        0 <= current < length,
    ensures
        target(current, length, page_rows as int, NavigationKey::PageDown) == pressed_down(
            current,
            length,
            if page_rows == 0 {
                1
            } else {
                page_rows
            },
        ),
        target(current, length, page_rows as int, NavigationKey::PageUp) == pressed_up(
            current,
            length,
            if page_rows == 0 {
                1
            } else {
                page_rows
            },
        ),
{
    let presses: nat = if page_rows == 0 {
        1
    } else {
        page_rows
    };
    lemma_presses(current, length, presses);
}

proof fn lemma_presses(current: int, length: int, presses: nat)
    requires
        0 <= current < length,
    ensures
        pressed_down(current, length, presses) == least(current + presses, length - 1),
        pressed_up(current, length, presses) == greatest(current - presses, 0),
    decreases presses,
{
    if presses > 0 {
        lemma_presses(current, length, (presses - 1) as nat);
    }
}

/// The place of a process is that of the first row with its key.
pub proof fn lemma_place_of(rows: Seq<ProcessData>, key: ProcessKey, k: int)
    requires
        0 <= k < rows.len(),
        rows[k].pid == key.pid && rows[k].start_time_ticks == key.start_time_ticks,
        forall|i: int|
            0 <= i < k ==> (#[trigger] rows[i]).pid != key.pid || rows[i].start_time_ticks
                != key.start_time_ticks,
    ensures
        place_of(rows, key) == k,
    decreases k,
{
    if k > 0 {
        let rest = rows.skip(1);
        assert(rows[0].pid != key.pid || rows[0].start_time_ticks != key.start_time_ticks);
        assert forall|i: int| 0 <= i < k - 1 implies (#[trigger] rest[i]).pid != key.pid
            || rest[i].start_time_ticks != key.start_time_ticks by {
            assert(rows[i + 1].pid != key.pid || rows[i + 1].start_time_ticks
                != key.start_time_ticks);
        }
        lemma_place_of(rest, key, k - 1);
    }
}

/// The keyboard stays with its process wherever a new order puts it, and moves to the row that
/// a key leads to from there.
pub proof fn lemma_keyboard_follows_the_process(
    rows: Seq<ProcessData>,
    key: ProcessKey,
    before: usize,
    page_rows: usize,
    k: int,
)
    requires
        rows.len() <= usize::MAX,
        0 <= k < rows.len(),
        rows[k].pid == key.pid && rows[k].start_time_ticks == key.start_time_ticks,
        forall|i: int|
            0 <= i < k ==> (#[trigger] rows[i]).pid != key.pid || rows[i].start_time_ticks
                != key.start_time_ticks,
    ensures
        followed(rows, Some((key, before)), None, page_rows) == if before == k {
            None
        } else {
            Some((key, k as usize))
        },
        k + 1 < rows.len() ==> followed(
            rows,
            Some((key, before)),
            Some(NavigationKey::ArrowDown),
            page_rows,
        ) == Some((key_of(rows[k + 1]), (k + 1) as usize)),
        k > 0 ==> followed(
            rows,
            Some((key, before)),
            Some(NavigationKey::ArrowUp),
            page_rows,
        ) == Some((key_of(rows[k - 1]), (k - 1) as usize)),
        followed(rows, Some((key, before)), Some(NavigationKey::Home), page_rows) == Some(
            (key_of(rows[0]), 0usize),
        ),
        followed(rows, Some((key, before)), Some(NavigationKey::End), page_rows) == Some(
            (key_of(rows.last()), (rows.len() - 1) as usize),
        ),
        followed(rows, None, Some(NavigationKey::Home), page_rows) is None,
{
    lemma_place_of(rows, key, k);
}

/// A column of amounts or times shows the largest first when it is chosen, any other one the
/// smallest.
pub proof fn lemma_which_columns_begin_with_the_largest(column: Column)
    ensures
        column.largest_first() <==> column != Column::Pid && column != Column::User && column
            != Column::Priority && column != Column::Nice && column != Column::State && column
            != Column::Command,
{
}

// ---------------------------------------------------------------------------
// Laws of texts
// ---------------------------------------------------------------------------

/// States that a filter holds together are told apart by their names, and states of different
/// filters never share one.
pub proof fn lemma_names_of_states(state: char)
    ensures
        StateFilter::kind_of(state) == StateFilter::Running <==> state_text(state)
            == "Running / runnable"@,
        StateFilter::kind_of(state) == StateFilter::Sleeping <==> state_text(state) == "Sleeping"@
            || state_text(state) == "Idle"@,
        StateFilter::kind_of(state) == StateFilter::DiskSleep <==> state_text(state)
            == "Uninterruptible disk sleep"@,
        StateFilter::kind_of(state) == StateFilter::Stopped <==> state_text(state) == "Stopped"@
            || state_text(state) == "Tracing stop"@,
        StateFilter::kind_of(state) == StateFilter::Zombie <==> state_text(state) == "Zombie"@,
        state_text('S') == "Sleeping"@ && state_text('I') == "Idle"@,
        state_text('T') == "Stopped"@ && state_text('t') == "Tracing stop"@,
        state_text('X') == state_text('x'),
{
    reveal_strlit("Running / runnable");
    reveal_strlit("Sleeping");
    reveal_strlit("Uninterruptible disk sleep");
    reveal_strlit("Stopped");
    reveal_strlit("Tracing stop");
    reveal_strlit("Zombie");
    reveal_strlit("Idle");
    reveal_strlit("Dead");
    reveal_strlit("Paging / waking");
    reveal_strlit("Parked");
    reveal_strlit("Other");
    assert("Running / runnable"@[0] == 'R');
    assert("Sleeping"@[0] == 'S' && "Sleeping"@[1] == 'l');
    assert("Uninterruptible disk sleep"@[0] == 'U');
    assert("Stopped"@[0] == 'S' && "Stopped"@[1] == 't');
    assert("Tracing stop"@[0] == 'T');
    assert("Zombie"@[0] == 'Z');
    assert("Idle"@[0] == 'I');
    assert("Dead"@[0] == 'D');
    assert("Paging / waking"@[0] == 'P');
    assert("Parked"@[0] == 'P');
    assert("Other"@[0] == 'O');
}

/// Where the process that the keyboard was at is gone, it moves nowhere; and so where it was at
/// none.
pub proof fn lemma_keyboard_forgets_what_is_gone(
    rows: Seq<ProcessData>,
    key: ProcessKey,
    before: usize,
    pressed: Option<NavigationKey>,
    page_rows: usize,
)
    requires
        forall|i: int|
            0 <= i < rows.len() ==> (#[trigger] rows[i]).pid != key.pid
                || rows[i].start_time_ticks != key.start_time_ticks,
    ensures
        followed(rows, Some((key, before)), pressed, page_rows) is None,
        followed(rows, None, pressed, page_rows) is None,
{
    lemma_place_of_none(rows, key);
}

proof fn lemma_place_of_none(rows: Seq<ProcessData>, key: ProcessKey)
    requires
        forall|i: int|
            0 <= i < rows.len() ==> (#[trigger] rows[i]).pid != key.pid
                || rows[i].start_time_ticks != key.start_time_ticks,
    ensures
        place_of(rows, key) >= rows.len(),
    decreases rows.len(),
{
    if rows.len() > 0 {
        let rest = rows.skip(1);
        assert(rows[0].pid != key.pid || rows[0].start_time_ticks != key.start_time_ticks);
        assert forall|i: int| 0 <= i < rest.len() implies (#[trigger] rest[i]).pid != key.pid
            || rest[i].start_time_ticks != key.start_time_ticks by {
            assert(rest[i] == rows[i + 1]);
        }
        lemma_place_of_none(rest, key);
    }
}

/// How many processes are shown, of how many, and by what they are sorted.
pub proof fn lemma_status_tells_numbers(view: ProcessView, shown: nat, total: nat)
    ensures
        begins(view.status_text(shown, total), decimal(shown) + " of "@ + decimal(total) + " "@),
        view.descending ==> ends(
            view.status_text(shown, total),
            "by "@ + view.sort.title_text() + " descending"@,
        ),
        !view.descending ==> ends(
            view.status_text(shown, total),
            "by "@ + view.sort.title_text() + " ascending"@,
        ),
{
    let text = view.status_text(shown, total);
    let start = decimal(shown) + " of "@ + decimal(total) + " "@;
    reveal_strlit(" processes · Sorted by ");
    reveal_strlit(" ");
    reveal_strlit("by ");
    assert(text.take(start.len() as int) =~= start);
    let down = "by "@ + view.sort.title_text() + " descending"@;
    let up = "by "@ + view.sort.title_text() + " ascending"@;
    if view.descending {
        assert(text.skip(text.len() - down.len()) =~= down);
    } else {
        assert(text.skip(text.len() - up.len()) =~= up);
    }
}

} // verus!
