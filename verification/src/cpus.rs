//! CPUs: how busy they are, and their clocks.

use crate::accuracy::{differ_by, lemma_parts_of_a_number};
use crate::counters::{busy_share, cpu_number, parse_positive, positive, CpuTimes};
use crate::double::{Double, HIDDEN};
use crate::table::lookup;
use crate::text::{
    decimal, optional_view, push_decimal, read_trimmed, said, same_text, trimmed, views,
};
use vstd::math::abs;
use vstd::prelude::*;

verus! {

/// A CPU.
#[derive(Clone, Copy, Debug, PartialEq, Eq, Structural)]
pub struct Core {
    pub id: usize,
    pub percent: Option<Double>,
    pub frequency_mhz: Option<Double>,
}

/// The clock files of a CPU.
#[derive(Clone, Debug)]
pub struct ClockFiles {
    /// The name of the CPU's directory, such as `cpu0`.
    pub name: String,
    /// `cpuinfo_cur_freq`.
    pub hardware: Option<String>,
    /// `scaling_cur_freq`.
    pub scaling: Option<String>,
}

#[verifier::ext_equal]
pub struct ClockFilesView {
    pub name: Seq<char>,
    pub hardware: Option<Seq<char>>,
    pub scaling: Option<Seq<char>>,
}

impl View for ClockFiles {
    type V = ClockFilesView;

    open spec fn view(&self) -> ClockFilesView {
        ClockFilesView {
            name: self.name@,
            hardware: optional_view(self.hardware),
            scaling: optional_view(self.scaling),
        }
    }
}

/// The clock files of a CPU by the name of its directory; nothing can be read of
/// one that is not there.
pub open spec fn clock_files_named(list: Seq<ClockFilesView>, name: Seq<char>) -> ClockFilesView
    decreases list.len(),
{
    if list.len() == 0 {
        ClockFilesView { name, hardware: None, scaling: None }
    } else if list[0].name == name {
        list[0]
    } else {
        clock_files_named(list.skip(1), name)
    }
}

/// The clock in MHz that a file gives in kHz.
pub open spec fn kilohertz(text: Option<Seq<char>>) -> Option<Double> {
    match said(text) {
        Some(inner) => match positive(inner) {
            Some(khz) => Some(khz.quotient(Double::integer(1000))),
            None => None,
        },
        None => None,
    }
}

/// The clock that the files of a CPU give: the hardware's, or else the one that
/// it is scaled to.
pub open spec fn file_clock(files: ClockFilesView) -> Option<Double> {
    match kilohertz(files.hardware) {
        Some(mhz) => Some(mhz),
        None => kilohertz(files.scaling),
    }
}

/// The clock of a CPU: that of its files, or else that of `/proc/cpuinfo`.
pub open spec fn core_clock(
    list: Seq<ClockFilesView>,
    table: Map<usize, Double>,
    id: usize,
) -> Option<Double> {
    match file_clock(clock_files_named(list, "cpu"@ + decimal(id as nat))) {
        Some(mhz) => Some(mhz),
        None => if table.contains_key(id) {
            Some(table[id])
        } else {
            None
        },
    }
}

/// The share of the time since the last sample that a CPU was busy.
pub open spec fn share_since(
    previous: Seq<(Seq<char>, CpuTimes)>,
    name: Seq<char>,
    current: CpuTimes,
) -> Option<Double> {
    match lookup(previous, name) {
        Some(before) => busy_share(before, current),
        None => None,
    }
}

/// CPUs in the order of their numbers with another one put among them, behind
/// those with the same number.
pub open spec fn with_core(cores: Seq<Core>, core: Core) -> Seq<Core>
    decreases cores.len(),
{
    if cores.len() == 0 || cores.last().id <= core.id {
        cores.push(core)
    } else {
        with_core(cores.drop_last(), core).push(cores.last())
    }
}

/// What a sample says of the CPUs.
pub open spec fn cores_of(
    cpu: Seq<(Seq<char>, CpuTimes)>,
    previous: Seq<(Seq<char>, CpuTimes)>,
    list: Seq<ClockFilesView>,
    table: Map<usize, Double>,
) -> Seq<Core>
    decreases cpu.len(),
{
    if cpu.len() == 0 {
        Seq::empty()
    } else {
        let before = cores_of(cpu.drop_last(), previous, list, table);
        let (name, current) = cpu.last();
        match cpu_number(name) {
            Some(id) => with_core(
                before,
                Core {
                    id: id as usize,
                    percent: share_since(previous, name, current),
                    frequency_mhz: core_clock(list, table, id as usize),
                },
            ),
            None => before,
        }
    }
}

/// Whether the CPUs stand in the order of their numbers.
pub open spec fn cores_in_order(cores: Seq<Core>) -> bool {
    forall|i: int, j: int| 0 <= i < j < cores.len() ==> #[trigger] cores[i].id <= #[trigger] cores[j].id
}

proof fn lemma_with_core(cores: Seq<Core>, core: Core)
    requires
        cores_in_order(cores),
    ensures
        cores_in_order(with_core(cores, core)),
        with_core(cores, core).len() == cores.len() + 1,
        forall|i: int|
            0 <= i < with_core(cores, core).len() ==> (#[trigger] with_core(cores, core)[i]).id
                == core.id || exists|k: int|
                0 <= k < cores.len() && (#[trigger] cores[k]).id == with_core(cores, core)[i].id,
    decreases cores.len(),
{
    let after = with_core(cores, core);
    if cores.len() == 0 || cores.last().id <= core.id {
        assert forall|i: int| 0 <= i < after.len() implies (#[trigger] after[i]).id == core.id
            || exists|k: int| 0 <= k < cores.len() && (#[trigger] cores[k]).id == after[i].id by {
            if i < cores.len() {
                assert(after[i] == cores[i]);
            }
        }
    } else {
        let less = cores.drop_last();
        let inner = with_core(less, core);
        lemma_with_core(less, core);
        assert forall|i: int| 0 <= i < after.len() implies (#[trigger] after[i]).id == core.id
            || exists|k: int| 0 <= k < cores.len() && (#[trigger] cores[k]).id == after[i].id by {
            if i < inner.len() {
                assert(after[i] == inner[i]);
                if inner[i].id != core.id {
                    let k = choose|k: int|
                        0 <= k < less.len() && (#[trigger] less[k]).id == inner[i].id;
                    assert(cores[k].id == after[i].id);
                }
            } else {
                assert(cores[cores.len() - 1].id == after[i].id);
            }
        }
        assert forall|i: int, j: int| 0 <= i < j < after.len() implies #[trigger] after[i].id
            <= #[trigger] after[j].id by {
            if j == inner.len() {
                assert(after[i] == inner[i]);
                if inner[i].id != core.id {
                    let k = choose|k: int|
                        0 <= k < less.len() && (#[trigger] less[k]).id == inner[i].id;
                    assert(cores[k].id <= cores[cores.len() - 1].id);
                }
            } else {
                assert(after[i] == inner[i]);
                assert(after[j] == inner[j]);
            }
        }
    }
}

/// The CPUs of a sample stand in the order of their numbers.
pub proof fn lemma_cores_in_order(
    cpu: Seq<(Seq<char>, CpuTimes)>,
    previous: Seq<(Seq<char>, CpuTimes)>,
    list: Seq<ClockFilesView>,
    table: Map<usize, Double>,
)
    ensures
        cores_in_order(cores_of(cpu, previous, list, table)),
    decreases cpu.len(),
{
    if cpu.len() > 0 {
        lemma_cores_in_order(cpu.drop_last(), previous, list, table);
        let before = cores_of(cpu.drop_last(), previous, list, table);
        let (name, current) = cpu.last();
        match cpu_number(name) {
            Some(id) => {
                lemma_with_core(
                    before,
                    Core {
                        id: id as usize,
                        percent: share_since(previous, name, current),
                        frequency_mhz: core_clock(list, table, id as usize),
                    },
                );
            },
            None => {},
        }
    }
}

fn read_kilohertz(text: &Option<String>) -> (result: Option<Double>)
    ensures
        result == kilohertz(optional_view(*text)),
{
    match read_trimmed(text) {
        Some(inner) => match parse_positive(inner.as_slice()) {
            Some(khz) => Some(khz.div(Double::from_integer(1000))),
            None => None,
        },
        None => None,
    }
}

/// The clock that the files of a CPU give, in MHz.
pub fn cpu_frequency(list: &Vec<ClockFiles>, id: usize) -> (result: Option<Double>)
    ensures
        result == file_clock(clock_files_named(views(list@), "cpu"@ + decimal(id as nat))),
{
    let mut name: String = "cpu".to_owned();
    push_decimal(&mut name, id as u64);
    let ghost all = views(list@);
    let mut i: usize = 0;
    assert(all.skip(0) =~= all);
    while i < list.len()
        invariant
            i <= list@.len(),
            all == views(list@),
            name@ == "cpu"@ + decimal(id as nat),
            clock_files_named(all, name@) == clock_files_named(all.skip(i as int), name@),
        decreases list@.len() - i,
    {
        assert(all[i as int] == list@[i as int]@);
        assert(all.skip(i as int).skip(1) =~= all.skip(i + 1));
        if same_text(list[i].name.as_str(), name.as_str()) {
            return match read_kilohertz(&list[i].hardware) {
                Some(mhz) => Some(mhz),
                None => read_kilohertz(&list[i].scaling),
            };
        }
        i += 1;
    }
    None
}

pub(crate) fn place_core(cores: &mut Vec<Core>, core: Core)
    ensures
        final(cores)@ == with_core(old(cores)@, core),
{
    let ghost before = cores@;
    let mut i: usize = cores.len();
    assert(before.take(i as int) =~= before);
    assert(with_core(before, core) =~= with_core(before.take(i as int), core) + before.skip(
        i as int,
    ));
    while i > 0 && cores[i - 1].id > core.id
        invariant
            i <= cores@.len(),
            *cores == *old(cores),
            before == cores@,
            with_core(before, core) == with_core(before.take(i as int), core) + before.skip(
                i as int,
            ),
        decreases i,
    {
        let ghost here = before.take(i as int);
        assert(here.last() == before[i - 1]);
        assert(here.drop_last() =~= before.take(i - 1));
        i -= 1;
        assert(with_core(before, core) =~= with_core(before.take(i as int), core) + before.skip(
            i as int,
        ));
    }
    assert(i == 0 || before.take(i as int).last() == before[i - 1]);
    cores.insert(i, core);
    assert(cores@ =~= with_core(before, core));
}

/// A thousand times the clock that a file gives is what the file says, but for rounding.
pub proof fn lemma_clock_is_in_megahertz(text: Seq<char>, khz: Double)
    requires
        trimmed(text).len() > 0,
        positive(trimmed(text)) == Some(khz),
    ensures
        match kilohertz(Some(text)) {
            Some(mhz) => {
                &&& mhz.finite()
                &&& differ_by(mhz.value() * 1000, khz.value(), (abs(mhz.value()) + HIDDEN) * 1000)
            },
            None => false,
        },
{
    lemma_parts_of_a_number(khz, 1000);
}

/// The clock of a CPU is the one that its hardware file gives, or else the scaled one, or else
/// that of the table.
pub proof fn lemma_clock_is_the_best_known(
    list: Seq<ClockFilesView>,
    table: Map<usize, Double>,
    id: usize,
)
    ensures
        ({
            let files = clock_files_named(list, "cpu"@ + decimal(id as nat));
            let clock = core_clock(list, table, id);
            &&& kilohertz(files.hardware) is Some ==> clock == kilohertz(files.hardware)
            &&& kilohertz(files.hardware) is None && kilohertz(files.scaling) is Some ==> clock
                == kilohertz(files.scaling)
            &&& kilohertz(files.hardware) is None && kilohertz(files.scaling) is None
                && table.contains_key(id) ==> clock == Some(table[id])
            &&& kilohertz(files.hardware) is None && kilohertz(files.scaling) is None
                && !table.contains_key(id) ==> clock is None
        }),
{
}

/// The clock files of a CPU are those of the first entry with its name.
pub proof fn lemma_clock_files_named(list: Seq<ClockFilesView>, name: Seq<char>, k: int)
    requires
        0 <= k < list.len(),
        list[k].name == name,
        forall|i: int| 0 <= i < k ==> (#[trigger] list[i]).name != name,
    ensures
        clock_files_named(list, name) == list[k],
    decreases k,
{
    if k > 0 {
        let rest = list.skip(1);
        assert(list[0].name != name);
        assert forall|i: int| 0 <= i < k - 1 implies (#[trigger] rest[i]).name != name by {
            assert(list[i + 1].name != name);
        }
        lemma_clock_files_named(rest, name, k - 1);
    }
}

proof fn lemma_core_is_placed(cores: Seq<Core>, core: Core)
    ensures
        with_core(cores, core).to_multiset() == cores.to_multiset().insert(core),
    decreases cores.len(),
{
    if cores.len() == 0 || cores.last().id <= core.id {
        vstd::seq_lib::to_multiset_build(cores, core);
    } else {
        let less = cores.drop_last();
        lemma_core_is_placed(less, core);
        vstd::seq_lib::to_multiset_build(with_core(less, core), cores.last());
        vstd::seq_lib::to_multiset_build(less, cores.last());
        assert(less.push(cores.last()) =~= cores);
        assert(less.to_multiset().insert(core).insert(cores.last()) =~= less.to_multiset().insert(
            cores.last(),
        ).insert(core));
    }
}

/// A row of a CPU adds that CPU to the sample and changes no other: under its own number, with
/// the share since its own last row, and with its own clock. A row of no single CPU adds none.
pub proof fn lemma_each_row_is_a_core(
    cpu: Seq<(Seq<char>, CpuTimes)>,
    name: Seq<char>,
    current: CpuTimes,
    previous: Seq<(Seq<char>, CpuTimes)>,
    list: Seq<ClockFilesView>,
    table: Map<usize, Double>,
)
    ensures
        cores_of(Seq::empty(), previous, list, table).len() == 0,
        ({
            let before = cores_of(cpu, previous, list, table);
            let after = cores_of(cpu.push((name, current)), previous, list, table);
            match cpu_number(name) {
                Some(id) => after.to_multiset() == before.to_multiset().insert(
                    Core {
                        id: id as usize,
                        percent: match lookup(previous, name) {
                            Some(earlier) => busy_share(earlier, current),
                            None => None,
                        },
                        frequency_mhz: core_clock(list, table, id as usize),
                    },
                ),
                None => after == before,
            }
        }),
{
    assert(cpu.push((name, current)).drop_last() =~= cpu);
    let before = cores_of(cpu, previous, list, table);
    if let Some(id) = cpu_number(name) {
        lemma_core_is_placed(
            before,
            Core {
                id: id as usize,
                percent: share_since(previous, name, current),
                frequency_mhz: core_clock(list, table, id as usize),
            },
        );
    }
}

} // verus!
