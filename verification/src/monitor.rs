//! What the monitor shows: its pages, the history of samples, and what is selected.

use crate::accuracy::{is_close, lemma_difference_is_close, lemma_small_integer};
use crate::arithmetic::NO_NUMBER;
use crate::chart::Series;
use crate::counters::Memory;
use crate::cpus::Core;
use crate::disks::Disk;
use crate::double::{lemma_choices_are_numeric, lemma_order_is_numeric, units, Double, FINEST};
use crate::fixed::push_fixed;
use crate::history::{is_history, observed, points_of, History, Observation, WINDOW_SECONDS};
use crate::metrics::Snapshot;
use crate::networks::Network;
use crate::processes::ProcessSnapshot;
use crate::text::{
    characters, contains, decimal, decimal_characters, ends, holds, occurs_at, push_decimal,
    same_text, trim, trimmed, views,
};
use crate::theme::{BLUE, GREEN, LAVENDER, MAUVE, PEACH, TEAL};
use crate::writing::{lemma_fixed_writes_the_number, writes_number};
use vstd::arithmetic::power2::pow2;
use vstd::prelude::*;

verus! {

// ---------------------------------------------------------------------------
// Pages
// ---------------------------------------------------------------------------

/// A page of the monitor.
#[derive(Clone, Copy, Debug, PartialEq, Eq, Structural)]
pub enum Page {
    Summary,
    Cpu,
    Memory,
    Disk,
    Network,
    Thermals,
    Processes,
}

impl Default for Page {
    fn default() -> (result: Self)
        ensures
            result == Page::Summary,
    {
        Page::Summary
    }
}

impl Page {
    pub const ALL: [Page; 7] = [
        Page::Summary,
        Page::Cpu,
        Page::Memory,
        Page::Disk,
        Page::Network,
        Page::Thermals,
        Page::Processes,
    ];

    pub fn name(self) -> (result: &'static str)
        ensures
            result@ == match self {
                Page::Summary => "Summary"@,
                Page::Cpu => "CPU"@,
                Page::Memory => "Memory"@,
                Page::Disk => "Disk"@,
                Page::Network => "Network"@,
                Page::Thermals => "Thermals"@,
                Page::Processes => "Processes"@,
            },
    {
        match self {
            Page::Summary => "Summary",
            Page::Cpu => "CPU",
            Page::Memory => "Memory",
            Page::Disk => "Disk",
            Page::Network => "Network",
            Page::Thermals => "Thermals",
            Page::Processes => "Processes",
        }
    }

    pub fn subtitle(self) -> (result: &'static str)
        ensures
            result@ == match self {
                Page::Summary => "Your system, at a glance."@,
                Page::Cpu => "Processor activity, frequency, and every logical core."@,
                Page::Memory => "Physical memory, reclaimable cache, and swap."@,
                Page::Disk => "Read and write activity across your block devices."@,
                Page::Network => "Incoming and outgoing traffic by interface."@,
                Page::Thermals => "Temperature readings reported by your hardware."@,
                Page::Processes => "A closer look at what is running on your system."@,
            },
    {
        match self {
            Page::Summary => "Your system, at a glance.",
            Page::Cpu => "Processor activity, frequency, and every logical core.",
            Page::Memory => "Physical memory, reclaimable cache, and swap.",
            Page::Disk => "Read and write activity across your block devices.",
            Page::Network => "Incoming and outgoing traffic by interface.",
            Page::Thermals => "Temperature readings reported by your hardware.",
            Page::Processes => "A closer look at what is running on your system.",
        }
    }

    /// As `0xRRGGBB`.
    pub fn color(self) -> (result: u32)
        ensures
            result == match self {
                Page::Summary => MAUVE,
                Page::Cpu => BLUE,
                Page::Memory => MAUVE,
                Page::Disk => GREEN,
                Page::Network => TEAL,
                Page::Thermals => PEACH,
                Page::Processes => LAVENDER,
            },
    {
        match self {
            Page::Summary => MAUVE,
            Page::Cpu => BLUE,
            Page::Memory => MAUVE,
            Page::Disk => GREEN,
            Page::Network => TEAL,
            Page::Thermals => PEACH,
            Page::Processes => LAVENDER,
        }
    }
}

// ---------------------------------------------------------------------------
// Samples
// ---------------------------------------------------------------------------

/// What was measured at one time.
#[derive(Debug)]
pub struct Sample {
    /// In seconds of a clock that never goes back.
    pub at: Double,
    pub snapshot: Snapshot,
    pub processes: ProcessSnapshot,
}

impl Sample {
    /// A sample tells what was missing of the system first, then of the processes.
    pub fn new(at: Double, snapshot: Snapshot, processes: ProcessSnapshot) -> (result: Self)
        ensures
            result.at == at,
            result.processes == processes,
            views(result.snapshot.warnings@) == views(snapshot.warnings@) + views(
                processes.warnings@,
            ),
            result.snapshot == (Snapshot { warnings: result.snapshot.warnings, ..snapshot }),
    {
        let mut snapshot: Snapshot = snapshot;
        let ghost before = snapshot.warnings@;
        let ghost first = snapshot;
        let mut warnings: Vec<String> = snapshot.warnings;
        let mut i: usize = 0;
        assert(views(warnings@) =~= views(before) + views(processes.warnings@.take(0)));
        while i < processes.warnings.len()
            invariant
                i <= processes.warnings@.len(),
                views(warnings@) == views(before) + views(processes.warnings@.take(i as int)),
            decreases processes.warnings@.len() - i,
        {
            let warning: String = processes.warnings[i].clone();
            let ghost known = warnings@;
            warnings.push(warning);
            i += 1;
            assert(views(warnings@) =~= views(known).push(warning@));
            assert(views(processes.warnings@.take(i as int)) =~= views(
                processes.warnings@.take(i - 1),
            ).push(warning@));
        }
        assert(processes.warnings@.take(i as int) =~= processes.warnings@);
        snapshot.warnings = warnings;
        Sample { at, snapshot, processes }
    }
}

/// What is shown before the first sample: figures that are missing.
pub fn no_sample() -> (result: Snapshot)
    ensures
        result.uptime_secs == Double::no_number(),
        result.load@ == seq![Double::no_number(), Double::no_number(), Double::no_number()],
        result.cpu_percent is None,
        result.cores@.len() == 0,
        result.cpu_model@.len() == 0,
        result.hostname@.len() == 0,
        result.kernel@.len() == 0,
        result.memory == (Memory {
            total_bytes: 0,
            available_bytes: 0,
            used_bytes: 0,
            cached_bytes: 0,
            swap_total_bytes: 0,
            swap_used_bytes: 0,
        }),
        result.disks@.len() == 0,
        result.networks@.len() == 0,
        result.sensors@.len() == 0,
        result.warnings@.len() == 0,
{
    let none: Double = Double::from_bits(NO_NUMBER);
    let mut snapshot: Snapshot = Snapshot::default();
    snapshot.uptime_secs = none;
    snapshot.load = [none, none, none];
    assert(snapshot.load@ =~= seq![
        Double::no_number(),
        Double::no_number(),
        Double::no_number(),
    ]);
    snapshot
}

/// The state of the monitor.
#[derive(Debug)]
pub struct Loadpeek {
    pub page: Page,
    pub history: History,
    /// Changes when the history begins anew.
    pub generation: u64,
    pub processes: ProcessSnapshot,
    pub paused: bool,
    /// The disk that is shown, or all where it is empty.
    pub disk: String,
    /// The interface that is shown, or all where it is empty.
    pub network: String,
    pub core_filter: String,
}

impl Loadpeek {
    pub fn new() -> (result: Self)
        ensures
            result.page == Page::Summary,
            result.history@.len() == 0,
            result.generation == 0,
            result.processes.processes@.len() == 0,
            result.processes.warnings@.len() == 0,
            !result.paused,
            result.disk@.len() == 0,
            result.network@.len() == 0,
            result.core_filter@.len() == 0,
            result.is_consistent(),
    {
        Loadpeek {
            page: Page::Summary,
            history: History::default(),
            generation: 0,
            processes: ProcessSnapshot::default(),
            paused: false,
            disk: String::new(),
            network: String::new(),
            core_filter: String::new(),
        }
    }
}

impl Loadpeek {
    /// What holds of the monitor at any time.
    pub open spec fn is_consistent(self) -> bool {
        is_history(self.history@)
    }

    /// Whether what the user has chosen is the same.
    pub open spec fn same_choices(self, other: Self) -> bool {
        &&& self.page == other.page
        &&& self.disk == other.disk
        &&& self.network == other.network
        &&& self.core_filter == other.core_filter
    }

    /// Takes a sample in, unless samples are paused. Of the processes only the
    /// latest are kept.
    pub fn receive(&mut self, sample: Sample)
        ensures
            old(self).paused ==> *final(self) == *old(self),
            !old(self).paused ==> {
                &&& final(self).history@ == observed(
                    old(self).history@,
                    Observation { at: sample.at, snapshot: sample.snapshot },
                )
                &&& final(self).processes == sample.processes
            },
            final(self).paused == old(self).paused,
            final(self).generation == old(self).generation,
            final(self).same_choices(*old(self)),
            old(self).is_consistent() ==> final(self).is_consistent(),
    {
        if !self.paused {
            self.history.push(sample.at, sample.snapshot);
            self.processes = sample.processes;
        }
    }

    /// Pauses or resumes. What is resumed begins anew, with an empty history of
    /// another generation.
    pub fn toggle_pause(&mut self)
        ensures
            final(self).paused == !old(self).paused,
            final(self).same_choices(*old(self)),
            old(self).is_consistent() ==> final(self).is_consistent(),
            !old(self).paused ==> {
                &&& final(self).history == old(self).history
                &&& final(self).processes == old(self).processes
                &&& final(self).generation == old(self).generation
            },
            old(self).paused ==> {
                &&& final(self).history@.len() == 0
                &&& final(self).processes.processes@.len() == 0
                &&& final(self).processes.warnings@.len() == 0
                &&& final(self).generation == next_generation(old(self).generation)
            },
    {
        self.paused = !self.paused;
        if !self.paused {
            self.history = History::default();
            self.processes = ProcessSnapshot::default();
            self.generation = self.generation.wrapping_add(1);
        }
    }

    /// A line of a chart: one figure of each sample of the history.
    pub fn series(
        &self,
        name: &str,
        color: u32,
        dashed: bool,
        select: impl Fn(&Snapshot) -> Option<Double>,
    ) -> (result: Series)
        requires
            forall|snapshot: &Snapshot| call_requires(select, (snapshot,)),
        ensures
            result@.name == name@,
            result@.color == color,
            result@.dashed == dashed,
            result@.history_generation == self.generation,
            result@.time_origin == if self.history@.len() > 0 {
                self.history@.last().at
            } else {
                Double::zero()
            },
            exists|values: Seq<Option<Double>>|
                {
                    &&& values.len() == self.history@.len()
                    &&& forall|i: int|
                        0 <= i < values.len() ==> call_ensures(
                            select,
                            (&self.history@[i].snapshot,),
                            #[trigger] values[i],
                        )
                    &&& result@.points == #[trigger] points_of(
                        self.history.times(),
                        values,
                        values.len() as int,
                    )
                },
    {
        Series {
            name: name.to_owned(),
            color,
            history_generation: self.generation,
            time_origin: self.history.latest_time(),
            points: self.history.series(select),
            dashed,
        }
    }

    /// Shows all disks again where the one that was shown is gone.
    pub fn forget_missing_disk(&mut self, snapshot: &Snapshot)
        ensures
            final(self).disk@ == if has_disk(snapshot.disks@, old(self).disk@) {
                old(self).disk@
            } else {
                Seq::<char>::empty()
            },
            *final(self) == (Loadpeek { disk: final(self).disk, ..*old(self) }),
    {
        let mut i: usize = 0;
        while i < snapshot.disks.len()
            invariant
                i <= snapshot.disks@.len(),
                forall|k: int| 0 <= k < i ==> (#[trigger] snapshot.disks@[k]).name@ != self.disk@,
            decreases snapshot.disks@.len() - i,
        {
            let disk: &Disk = &snapshot.disks[i];
            if same_text(disk.name.as_str(), self.disk.as_str()) {
                assert(snapshot.disks@[i as int].name@ == self.disk@);
                return;
            }
            i += 1;
        }
        self.disk = String::new();
        assert(self.disk@ =~= Seq::<char>::empty());
    }

    /// Shows all interfaces again where the one that was shown is gone.
    pub fn forget_missing_network(&mut self, snapshot: &Snapshot)
        ensures
            final(self).network@ == if has_network(snapshot.networks@, old(self).network@) {
                old(self).network@
            } else {
                Seq::<char>::empty()
            },
            *final(self) == (Loadpeek { network: final(self).network, ..*old(self) }),
    {
        let mut i: usize = 0;
        while i < snapshot.networks.len()
            invariant
                i <= snapshot.networks@.len(),
                forall|k: int|
                    0 <= k < i ==> (#[trigger] snapshot.networks@[k]).name@ != self.network@,
            decreases snapshot.networks@.len() - i,
        {
            let network: &Network = &snapshot.networks[i];
            if same_text(network.name.as_str(), self.network.as_str()) {
                assert(snapshot.networks@[i as int].name@ == self.network@);
                return;
            }
            i += 1;
        }
        self.network = String::new();
        assert(self.network@ =~= Seq::<char>::empty());
    }

    /// The CPUs whose number holds what was typed.
    pub fn shown_cores(&self, snapshot: &Snapshot) -> (result: Vec<Core>)
        ensures
            result@ == matching_cores(snapshot.cores@, self.core_filter@),
    {
        let typed: Vec<char> = characters(self.core_filter.as_str());
        let wanted: &[char] = trim(typed.as_slice());
        let mut result: Vec<Core> = Vec::new();
        let mut i: usize = 0;
        assert(result@ =~= matching_cores(snapshot.cores@.take(0), self.core_filter@));
        while i < snapshot.cores.len()
            invariant
                i <= snapshot.cores@.len(),
                wanted@ == trimmed(self.core_filter@),
                result@ == matching_cores(snapshot.cores@.take(i as int), self.core_filter@),
            decreases snapshot.cores@.len() - i,
        {
            assert(snapshot.cores@.take(i + 1).drop_last() =~= snapshot.cores@.take(i as int));
            let core: Core = snapshot.cores[i];
            let number: Vec<char> = decimal_characters(core.id as u128);
            if wanted.len() == 0 || contains(number.as_slice(), wanted) {
                result.push(core);
            }
            i += 1;
        }
        assert(snapshot.cores@.take(i as int) =~= snapshot.cores@);
        result
    }

    /// What is said of the samples that are shown.
    pub open spec fn status_text(self, refresh_secs: Double) -> Seq<char> {
        if self.page != Page::Processes {
            "LAST 60 SECONDS  ·  "@ + collected(self.history@).minimum(
                Double::integer(60),
            ).fixed(0) + "s collected  ·  "@ + decimal(self.history@.len()) + " samples"@
        } else if self.paused {
            "PAUSED PROCESS SNAPSHOT"@
        } else {
            "CURRENT PROCESSES  ·  refresh every "@ + refresh_secs.fixed(1) + "s"@
        }
    }

    /// What is said of the samples that are shown.
    pub fn status(&self, refresh_secs: Double) -> (result: String)
        ensures
            result@ == self.status_text(refresh_secs),
    {
        if self.page != Page::Processes {
            let mut text: String = "LAST 60 SECONDS  ·  ".to_owned();
            let span: Double = self.history.span_seconds().min(Double::from_integer(60));
            push_fixed(&mut text, span, 0);
            text.append("s collected  ·  ");
            push_decimal(&mut text, self.history.len() as u64);
            text.append(" samples");
            text
        } else if self.paused {
            "PAUSED PROCESS SNAPSHOT".to_owned()
        } else {
            let mut text: String = "CURRENT PROCESSES  ·  refresh every ".to_owned();
            push_fixed(&mut text, refresh_secs, 1);
            text.append("s");
            text
        }
    }
}

/// How many seconds of history there are.
pub open spec fn collected(history: Seq<Observation>) -> Double {
    if history.len() > 0 {
        history.last().at.difference(history[0].at).clamped(
            Double::zero(),
            Double::integer(WINDOW_SECONDS as nat),
        )
    } else {
        Double::zero()
    }
}

pub open spec fn has_disk(disks: Seq<Disk>, name: Seq<char>) -> bool {
    exists|i: int| 0 <= i < disks.len() && (#[trigger] disks[i]).name@ == name
}

pub open spec fn has_network(networks: Seq<Network>, name: Seq<char>) -> bool {
    exists|i: int| 0 <= i < networks.len() && (#[trigger] networks[i]).name@ == name
}

/// The CPUs whose number holds what was typed, blanks around it aside.
pub open spec fn matching_cores(cores: Seq<Core>, typed: Seq<char>) -> Seq<Core>
    decreases cores.len(),
{
    if cores.len() == 0 {
        Seq::empty()
    } else {
        let before = matching_cores(cores.drop_last(), typed);
        let core = cores.last();
        if trimmed(typed).len() == 0 || holds(decimal(core.id as nat), trimmed(typed)) {
            before.push(core)
        } else {
            before
        }
    }
}

/// The generation of a history that begins anew: the one behind the last, and the first
/// again behind the greatest number.
pub open spec fn next_generation(generation: u64) -> u64 {
    if generation == u64::MAX {
        0
    } else {
        (generation + 1) as u64
    }
}

/// The generation of a history that has begun anew a number of times.
pub open spec fn generation_after(generation: u64, resets: nat) -> u64
    decreases resets,
{
    if resets == 0 {
        generation
    } else {
        next_generation(generation_after(generation, (resets - 1) as nat))
    }
}

proof fn lemma_generation_counts(generation: u64, resets: nat)
    ensures
        generation_after(generation, resets) == (generation + resets) % 0x1_0000_0000_0000_0000,
    decreases resets,
{
    if resets > 0 {
        lemma_generation_counts(generation, (resets - 1) as nat);
    }
}

/// The generation of a history that began anew differs from every earlier one, as long as
/// the history has not begun anew so often that the number of the generation came round.
/// From the start of the program it is the number of times that it did.
pub proof fn lemma_generations_differ(generation: u64, earlier: nat, later: nat)
    requires
        earlier < later <= earlier + u64::MAX,
    ensures
        generation_after(generation, earlier) != generation_after(generation, later),
        later <= u64::MAX ==> generation_after(0, later) == later,
{
    lemma_generation_counts(generation, earlier);
    lemma_generation_counts(generation, later);
    lemma_generation_counts(0, later);
}

/// A CPU is shown exactly where its number holds what was typed; where nothing was typed, all
/// are. They stay in their order.
pub proof fn lemma_cores_that_match(cores: Seq<Core>, core: Core, typed: Seq<char>)
    ensures
        matching_cores(Seq::empty(), typed).len() == 0,
        trimmed(typed).len() == 0 || holds(decimal(core.id as nat), trimmed(typed))
            ==> matching_cores(cores.push(core), typed) == matching_cores(cores, typed).push(core),
        trimmed(typed).len() > 0 && !holds(decimal(core.id as nat), trimmed(typed))
            ==> matching_cores(cores.push(core), typed) == matching_cores(cores, typed),
        trimmed(typed) == decimal(core.id as nat) ==> holds(
            decimal(core.id as nat),
            trimmed(typed),
        ),
{
    assert(cores.push(core).drop_last() =~= cores);
    let number = decimal(core.id as nat);
    if trimmed(typed) == number {
        assert(number.subrange(0, number.len() as int) =~= number);
        assert(occurs_at(number, trimmed(typed), 0));
    }
}

/// How much was collected is the time from the first observation to the last, but for rounding,
/// and a minute at most.
pub proof fn lemma_collected_time(history: Seq<Observation>)
    requires
        is_history(history),
        history.len() > 0,
        history.last().at.difference(history[0].at).finite(),
    ensures
        ({
            let minute = 60 * pow2(FINEST as nat);
            let span = history.last().at.difference(history[0].at).value();
            let shown = collected(history).value();
            &&& is_close(span, history.last().at.value() - history[0].at.value())
            &&& span >= 0
            &&& span <= minute ==> shown == span
            &&& span > minute ==> shown == minute
        }),
{
    let first = history[0].at;
    let last = history.last().at;
    let span = last.difference(first);
    assert(history[history.len() - 1].at.finite() && first.finite());
    assert(units(0) == 0);
    lemma_difference_is_close(last, first);
    lemma_small_integer(60);
    lemma_order_is_numeric(span, Double::zero());
    lemma_order_is_numeric(Double::integer(60), span);
    if history.len() > 1 {
        assert(history[0].at.less(history[history.len() - 1].at));
    }
    lemma_order_is_numeric(first, last);
}

/// What is said of the samples tells how many seconds they cover, to the second, and how many
/// they are.
pub proof fn lemma_status_tells_what_is_collected(view: Loadpeek, refresh: Double)
    requires
        view.is_consistent(),
        view.page != Page::Processes,
        view.history@.len() > 0,
        view.history@.last().at.difference(view.history@[0].at).finite(),
    ensures
        ({
            let seconds = collected(view.history@);
            &&& ends(
                view.status_text(refresh),
                "  ·  "@ + seconds.fixed(0) + "s collected  ·  "@ + decimal(view.history@.len())
                    + " samples"@,
            )
            &&& writes_number(seconds.fixed(0), seconds, 0)
        }),
{
    let seconds = collected(view.history@);
    lemma_collected_is_finite(view.history@);
    lemma_fixed_writes_the_number(seconds, 0);
    reveal_strlit("LAST 60 SECONDS  ·  ");
    reveal_strlit("  ·  ");
    let text = view.status_text(refresh);
    let end = "  ·  "@ + seconds.fixed(0) + "s collected  ·  "@ + decimal(view.history@.len())
        + " samples"@;
    assert(text.skip(text.len() - end.len()) =~= end);
}

proof fn lemma_collected_is_finite(history: Seq<Observation>)
    requires
        is_history(history),
        history.len() > 0,
        history.last().at.difference(history[0].at).finite(),
    ensures
        collected(history).finite(),
        collected(history).minimum(Double::integer(60)).fixed(0) == collected(history).fixed(0),
{
    let seconds = collected(history);
    let minute = Double::integer(60);
    lemma_small_integer(60);
    lemma_collected_time(history);
    assert(seconds.finite());
    assert(seconds.value() <= minute.value());
    lemma_choices_are_numeric(seconds, minute);
    if seconds.minimum(minute) != seconds {
        lemma_order_is_numeric(seconds, minute);
    }
}

/// Of the processes it is said how often they are read, to a tenth of a second, or that they
/// are not.
pub proof fn lemma_status_tells_how_often(view: Loadpeek, refresh: Double)
    requires
        view.page == Page::Processes,
        refresh.finite(),
    ensures
        !view.paused ==> ends(view.status_text(refresh), " every "@ + refresh.fixed(1) + "s"@),
        writes_number(refresh.fixed(1), refresh, 1),
        view.paused ==> view.status_text(refresh) == "PAUSED PROCESS SNAPSHOT"@,
{
    lemma_fixed_writes_the_number(refresh, 1);
    reveal_strlit("CURRENT PROCESSES  ·  refresh every ");
    reveal_strlit(" every ");
    let text = view.status_text(refresh);
    let end = " every "@ + refresh.fixed(1) + "s"@;
    if !view.paused {
        assert(text.skip(text.len() - end.len()) =~= end);
    }
}

} // verus!
