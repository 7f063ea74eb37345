//! What a system measures: its CPUs, memory, disks, network interfaces and
//! temperature sensors. Rates are differences of counters over the time between
//! two samples.

use crate::accuracy::{
    added, differ_by, lemma_difference_is_close, lemma_error_times, lemma_order_does_not_matter,
    lemma_parts_of_a_number, lemma_sum_is_close, PRECISION,
};
use crate::arithmetic::{
    lemma_mean_stays_between, lemma_number_rounds_to_itself, lemma_rounded_sum_grows,
    lemma_share_of_distance, NO_NUMBER,
};
use crate::counters::{
    amount, blocks, clocks_of, cpu_percent, cpu_times, memory_of, model_of, nonnegative,
    parse_cpu_number, parse_cpu_times, parse_cpuinfo, parse_memory, parse_nonnegative, tells_memory,
    CpuTimes, Memory,
};
use crate::cpus::{cores_of, cpu_frequency, place_core, share_since, ClockFiles, Core};
use crate::disks::{Disk, DiskBaseline, DiskReadings};
use crate::double::{lemma_order_is_numeric, units, Double, HIDDEN};
use crate::networks::{Network, NetworkBaseline, NetworkReadings};
use crate::readings::{read_notice, read_required, warn, Reading, ReadingView};
use crate::sensors::{
    discover_sensors, listed, sensor_notices, sensors_in_order, CpuTemperatureSource, Monitor,
    Sensor, SensorView, SourceView, Zone,
};
use crate::table::{lookup, Named, Table};
use crate::text::{
    characters, lines, optional_view, read_trimmed, said, same_text, split_whitespace, string_of,
    views, words,
};
use crate::writing::{is_solid, lemma_one_word, lemma_words_are_parted};
use std::collections::BTreeMap;
use vstd::math::abs;
use vstd::prelude::*;

verus! {

// ---------------------------------------------------------------------------
// Samples
// ---------------------------------------------------------------------------

/// The clocks of the CPUs of one sample.
#[derive(Clone, Copy, Debug, PartialEq, Eq, Structural)]
pub struct FrequencyStats {
    pub min_mhz: Double,
    pub average_mhz: Double,
    pub max_mhz: Double,
}

/// What was measured at one time.
#[derive(Clone, Debug)]
pub struct Snapshot {
    pub uptime_secs: Double,
    pub load: [Double; 3],
    pub cpu_percent: Option<Double>,
    pub cores: Vec<Core>,
    pub cpu_model: String,
    pub hostname: String,
    pub kernel: String,
    pub memory: Memory,
    pub disks: Vec<Disk>,
    pub networks: Vec<Network>,
    pub sensors: Vec<Sensor>,
    pub warnings: Vec<String>,
}

impl Default for Snapshot {
    fn default() -> (result: Self)
        ensures
            result.uptime_secs == Double::zero(),
            result.load@ == seq![Double::zero(), Double::zero(), Double::zero()],
            result.cpu_percent is None,
            result.cores@.len() == 0,
            result.cpu_model@.len() == 0,
            result.hostname@.len() == 0,
            result.kernel@.len() == 0,
            result.memory == (Memory {
                total_bytes: 0,
                available_bytes: 0,
                used_bytes: 0,
                cached_bytes: 0,
                swap_total_bytes: 0,
                swap_used_bytes: 0,
            }),
            result.disks@.len() == 0,
            result.networks@.len() == 0,
            result.sensors@.len() == 0,
            result.warnings@.len() == 0,
    {
        let zero: Double = Double::from_bits(0);
        let load: [Double; 3] = [zero, zero, zero];
        assert(load@ =~= seq![Double::zero(), Double::zero(), Double::zero()]);
        Snapshot {
            uptime_secs: zero,
            load,
            cpu_percent: None,
            cores: Vec::new(),
            cpu_model: String::new(),
            hostname: String::new(),
            kernel: String::new(),
            memory: Memory::default(),
            disks: Vec::new(),
            networks: Vec::new(),
            sensors: Vec::new(),
            warnings: Vec::new(),
        }
    }
}

// ---------------------------------------------------------------------------
// Figures of a sample
// ---------------------------------------------------------------------------

/// Whether a sensor reads a CPU.
pub open spec fn reads_cpu(sensor: SensorView) -> bool {
    sensor.is_cpu && sensor.celsius.finite()
}

/// Whether there is a reading of the die of a device.
pub open spec fn has_die(sensors: Seq<SensorView>, device: Seq<char>) -> bool {
    exists|i: int|
        0 <= i < sensors.len() && reads_cpu(#[trigger] sensors[i]) && sensors[i].source
            == (SourceView::Die { device })
}

/// Whether a sensor counts for the temperature of the CPUs: a value that fans
/// are controlled by does so only where its device has no reading of its die.
pub open spec fn counts_for_cpu(sensors: Seq<SensorView>, i: int) -> bool {
    &&& reads_cpu(sensors[i])
    &&& sensors[i].source matches SourceView::Control { device } ==> !has_die(sensors, device)
}

/// The hottest of the first sensors that count for the CPUs.
pub open spec fn hottest(sensors: Seq<SensorView>, n: int) -> Option<Double>
    decreases n,
{
    if n <= 0 {
        None
    } else if !counts_for_cpu(sensors, n - 1) {
        hottest(sensors, n - 1)
    } else {
        match hottest(sensors, n - 1) {
            Some(celsius) => Some(celsius.maximum(sensors[n - 1].celsius)),
            None => Some(sensors[n - 1].celsius),
        }
    }
}

/// The clocks of CPUs that give a valid one.
pub open spec fn valid_clocks(cores: Seq<Core>) -> Seq<Double>
    decreases cores.len(),
{
    if cores.len() == 0 {
        Seq::empty()
    } else {
        match cores.last().frequency_mhz {
            Some(mhz) => if mhz.finite() && Double::zero().less(mhz) {
                valid_clocks(cores.drop_last()).push(mhz)
            } else {
                valid_clocks(cores.drop_last())
            },
            None => valid_clocks(cores.drop_last()),
        }
    }
}

/// The slowest, the mean and the fastest clock. The mean is moved on by each
/// clock's share of its distance.
pub open spec fn clock_stats(clocks: Seq<Double>) -> Option<FrequencyStats>
    decreases clocks.len(),
{
    if clocks.len() == 0 {
        None
    } else {
        let mhz = clocks.last();
        match clock_stats(clocks.drop_last()) {
            None => Some(FrequencyStats { min_mhz: mhz, average_mhz: mhz, max_mhz: mhz }),
            Some(stats) => Some(
                FrequencyStats {
                    min_mhz: stats.min_mhz.minimum(mhz),
                    average_mhz: stats.average_mhz.sum(
                        mhz.difference(stats.average_mhz).quotient(
                            Double::integer(clocks.len()),
                        ),
                    ),
                    max_mhz: stats.max_mhz.maximum(mhz),
                },
            ),
        }
    }
}

/// No sensor that counts for the CPUs is hotter than the hottest.
pub proof fn lemma_hottest(sensors: Seq<SensorView>, n: int, i: int)
    requires
        0 <= i < n <= sensors.len(),
        counts_for_cpu(sensors, i),
    ensures
        match hottest(sensors, n) {
            Some(celsius) => sensors[i].celsius.at_most(celsius),
            None => false,
        },
    decreases n,
{
    lemma_hottest_is_a_reading(sensors, n - 1);
    if i < n - 1 {
        lemma_hottest(sensors, n - 1, i);
    }
}

/// The hottest, where there is one, is what a sensor that counts for the CPUs reads.
pub proof fn lemma_hottest_is_a_reading(sensors: Seq<SensorView>, n: int)
    requires
        n <= sensors.len(),
    ensures
        match hottest(sensors, n) {
            Some(celsius) => celsius.finite() && exists|i: int|
                0 <= i < n && #[trigger] counts_for_cpu(sensors, i) && sensors[i].celsius
                    == celsius,
            None => forall|i: int| 0 <= i < n ==> !#[trigger] counts_for_cpu(sensors, i),
        },
    decreases n,
{
    if n > 0 {
        lemma_hottest_is_a_reading(sensors, n - 1);
        assert(hottest(sensors, n) is Some ==> counts_for_cpu(sensors, n - 1) || hottest(sensors, n)
            == hottest(sensors, n - 1));
    }
}

/// Every clock lies between the slowest and the fastest.
pub proof fn lemma_clock_stats(clocks: Seq<Double>, i: int)
    requires
        forall|k: int| 0 <= k < clocks.len() ==> (#[trigger] clocks[k]).finite(),
        0 <= i < clocks.len(),
    ensures
        match clock_stats(clocks) {
            Some(stats) => stats.min_mhz.at_most(clocks[i]) && clocks[i].at_most(stats.max_mhz),
            None => false,
        },
    decreases clocks.len(),
{
    let rest = clocks.drop_last();
    assert(forall|k: int| 0 <= k < rest.len() ==> rest[k] == #[trigger] clocks[k]);
    if rest.len() > 0 {
        lemma_clock_stats(rest, 0);
        if i < rest.len() {
            lemma_clock_stats(rest, i);
        }
    }
}

/// The mean of clocks lies between the slowest and the fastest.
pub proof fn lemma_mean_clock(clocks: Seq<Double>)
    requires
        forall|k: int|
            0 <= k < clocks.len() ==> (#[trigger] clocks[k]).finite() && Double::zero().less(
                clocks[k],
            ),
        clocks.len() <= u64::MAX,
    ensures
        match clock_stats(clocks) {
            Some(stats) => {
                &&& Double::zero().less(stats.min_mhz)
                &&& stats.min_mhz.at_most(stats.average_mhz)
                &&& stats.average_mhz.at_most(stats.max_mhz)
                &&& stats.max_mhz.finite()
            },
            None => clocks.len() == 0,
        },
    decreases clocks.len(),
{
    if clocks.len() > 0 {
        let rest = clocks.drop_last();
        assert(forall|k: int| 0 <= k < rest.len() ==> rest[k] == #[trigger] clocks[k]);
        assert(clocks[clocks.len() - 1] == clocks.last());
        lemma_mean_clock(rest);
        if let Some(stats) = clock_stats(rest) {
            lemma_mean_stays_between(stats.average_mhz, clocks.last(), clocks.len());
        }
    }
}

/// The clocks that are counted are numbers above zero.
pub proof fn lemma_valid_clocks(cores: Seq<Core>)
    ensures
        valid_clocks(cores).len() <= cores.len(),
        forall|k: int|
            0 <= k < valid_clocks(cores).len() ==> (#[trigger] valid_clocks(cores)[k]).finite()
                && Double::zero().less(valid_clocks(cores)[k]),
    decreases cores.len(),
{
    if cores.len() > 0 {
        lemma_valid_clocks(cores.drop_last());
    }
}

impl Snapshot {
    /// Hottest recognized CPU reading, preferring a device's physical die
    /// temperature over its offset fan-control value when both are available.
    pub fn cpu_temperature(&self) -> (result: Option<Double>)
        ensures
            result == hottest(views(self.sensors@), self.sensors@.len() as int),
    {
        let ghost all = views(self.sensors@);
        let mut result: Option<Double> = None;
        let mut i: usize = 0;
        while i < self.sensors.len()
            invariant
                i <= self.sensors@.len(),
                all == views(self.sensors@),
                result == hottest(all, i as int),
            decreases self.sensors@.len() - i,
        {
            let sensor: &Sensor = &self.sensors[i];
            assert(all[i as int] == sensor@);
            let mut counts: bool = sensor.is_cpu && sensor.celsius.is_finite();
            if counts {
                match &sensor.cpu_temperature_source {
                    CpuTemperatureSource::Control { device } => {
                        if self.reads_die(device.as_str()) {
                            counts = false;
                        }
                    },
                    _ => {},
                }
            }
            assert(counts == counts_for_cpu(all, i as int));
            if counts {
                result = match result {
                    Some(celsius) => Some(celsius.max(sensor.celsius)),
                    None => Some(sensor.celsius),
                };
            }
            i += 1;
        }
        result
    }

    fn reads_die(&self, device: &str) -> (result: bool)
        ensures
            result == has_die(views(self.sensors@), device@),
    {
        let ghost all = views(self.sensors@);
        let mut i: usize = 0;
        while i < self.sensors.len()
            invariant
                i <= self.sensors@.len(),
                all == views(self.sensors@),
                forall|k: int|
                    0 <= k < i ==> !(reads_cpu(#[trigger] all[k]) && all[k].source
                        == (SourceView::Die { device: device@ })),
            decreases self.sensors@.len() - i,
        {
            let sensor: &Sensor = &self.sensors[i];
            assert(all[i as int] == sensor@);
            if sensor.is_cpu && sensor.celsius.is_finite() {
                match &sensor.cpu_temperature_source {
                    CpuTemperatureSource::Die { device: other } => {
                        if same_text(other.as_str(), device) {
                            assert(reads_cpu(all[i as int]));
                            return true;
                        }
                    },
                    _ => {},
                }
            }
            i += 1;
        }
        false
    }

    /// Clock statistics across cores with a valid reading in this sample.
    pub fn cpu_frequency_stats(&self) -> (result: Option<FrequencyStats>)
        ensures
            result == clock_stats(valid_clocks(self.cores@)),
    {
        let mut result: Option<FrequencyStats> = None;
        let mut count: usize = 0;
        let mut i: usize = 0;
        while i < self.cores.len()
            invariant
                i <= self.cores@.len(),
                count <= i,
                count == valid_clocks(self.cores@.take(i as int)).len(),
                result == clock_stats(valid_clocks(self.cores@.take(i as int))),
            decreases self.cores@.len() - i,
        {
            assert(self.cores@.take(i + 1).drop_last() =~= self.cores@.take(i as int));
            let ghost before = valid_clocks(self.cores@.take(i as int));
            match self.cores[i].frequency_mhz {
                Some(mhz) => {
                    if mhz.is_finite() && Double::from_bits(0).is_less(mhz) {
                        assert(before.push(mhz).drop_last() =~= before);
                        count += 1;
                        result = match result {
                            None => Some(
                                FrequencyStats { min_mhz: mhz, average_mhz: mhz, max_mhz: mhz },
                            ),
                            Some(stats) => Some(
                                FrequencyStats {
                                    min_mhz: stats.min_mhz.min(mhz),
                                    average_mhz: stats.average_mhz.add(
                                        mhz.sub(stats.average_mhz).div(
                                            Double::from_integer(count as u128),
                                        ),
                                    ),
                                    max_mhz: stats.max_mhz.max(mhz),
                                },
                            ),
                        };
                    }
                },
                None => {},
            }
            i += 1;
        }
        assert(self.cores@.take(i as int) =~= self.cores@);
        result
    }
}

// ---------------------------------------------------------------------------
// The collector
// ---------------------------------------------------------------------------

/// All that there is to read of a system for one sample.
#[derive(Debug)]
pub struct Readings {
    pub uptime: Reading,
    pub loadavg: Reading,
    pub cpuinfo: Reading,
    pub stat: Reading,
    pub clocks: Vec<ClockFiles>,
    pub meminfo: Reading,
    pub disks: DiskReadings,
    pub networks: NetworkReadings,
    pub monitors: Vec<Monitor>,
    pub zones: Vec<Zone>,
}

/// What is kept from one sample to the next.
#[derive(Debug)]
pub struct Collector {
    pub previous_cpu: Table<CpuTimes>,
    pub previous_disks: Table<DiskBaseline>,
    pub previous_networks: Table<NetworkBaseline>,
    pub previous_disk_time: Option<u64>,
    pub previous_network_time: Option<u64>,
    pub hostname: String,
    pub kernel: String,
}

impl Collector {
    /// A collector that has taken no sample yet.
    pub fn new(hostname: &Option<String>, kernel: &Option<String>) -> (result: Self)
        ensures
            result.previous_cpu@.len() == 0,
            result.previous_disks@.len() == 0,
            result.previous_networks@.len() == 0,
            result.previous_disk_time is None,
            result.previous_network_time is None,
            result.hostname@ == match said(optional_view(*hostname)) {
                Some(name) => name,
                None => "Linux host"@,
            },
            result.kernel@ == match said(optional_view(*kernel)) {
                Some(release) => release,
                None => "Unavailable"@,
            },
    {
        Collector {
            previous_cpu: Table::new(),
            previous_disks: Table::new(),
            previous_networks: Table::new(),
            previous_disk_time: None,
            previous_network_time: None,
            hostname: match read_trimmed(hostname) {
                Some(name) => string_of(name.as_slice()),
                None => "Linux host".to_owned(),
            },
            kernel: match read_trimmed(kernel) {
                Some(release) => string_of(release.as_slice()),
                None => "Unavailable".to_owned(),
            },
        }
    }
}

// ---------------------------------------------------------------------------
// A sample
// ---------------------------------------------------------------------------

/// The time that the system has been up, in seconds.
pub open spec fn uptime_of(reading: ReadingView) -> Double {
    match reading.text {
        Ok(text) => if words(text).len() > 0 && nonnegative(words(text)[0]) is Some {
            nonnegative(words(text)[0])->0
        } else {
            Double::no_number()
        },
        Err(_) => Double::no_number(),
    }
}

pub open spec fn uptime_notices(reading: ReadingView) -> Seq<Seq<char>> {
    read_notice(reading) + match reading.text {
        Ok(text) => if words(text).len() > 0 && nonnegative(words(text)[0]) is Some {
            Seq::empty()
        } else {
            seq!["System uptime could not be parsed."@]
        },
        Err(_) => Seq::empty(),
    }
}

/// One of the three load averages.
pub open spec fn load_of(reading: ReadingView, i: int) -> Double {
    match reading.text {
        Ok(text) => if i < words(text).len() && nonnegative(words(text)[i]) is Some {
            nonnegative(words(text)[i])->0
        } else {
            Double::no_number()
        },
        Err(_) => Double::no_number(),
    }
}

pub open spec fn load_notices(reading: ReadingView) -> Seq<Seq<char>> {
    read_notice(reading) + if reading.text is Ok && (load_of(reading, 0).nan() || load_of(
        reading,
        1,
    ).nan() || load_of(reading, 2).nan()) {
        seq!["Load averages are unavailable or incomplete."@]
    } else {
        Seq::empty()
    }
}

/// The text of a file, empty where it could not be read.
pub open spec fn text_or_empty(reading: ReadingView) -> Seq<char> {
    match reading.text {
        Ok(text) => text,
        Err(_) => Seq::empty(),
    }
}

/// The times of the CPUs, where they could be read.
pub open spec fn cpu_table(reading: ReadingView) -> Seq<(Seq<char>, CpuTimes)> {
    cpu_times(lines(text_or_empty(reading)))
}

/// Whether there are CPUs of which none gives its clock.
pub open spec fn no_clocks(cores: Seq<Core>) -> bool {
    cores.len() > 0 && forall|i: int|
        0 <= i < cores.len() ==> (#[trigger] cores[i]).frequency_mhz is None
}

pub open spec fn cpu_notices(stat: ReadingView, cores: Seq<Core>) -> Seq<Seq<char>> {
    read_notice(stat) + (if stat.text is Ok && lookup(cpu_table(stat), "cpu"@) is None {
        seq!["CPU utilization counters are unavailable."@]
    } else {
        Seq::empty()
    }) + (if no_clocks(cores) {
        seq!["CPU clock readings are not exposed by this system."@]
    } else {
        Seq::empty()
    })
}

/// The memory of a sample: nothing where it could not be read.
pub open spec fn memory_sampled(reading: ReadingView) -> Memory {
    if reading.text is Ok && tells_memory(lines(text_or_empty(reading))) {
        memory_of(lines(text_or_empty(reading)))
    } else {
        Memory {
            total_bytes: 0,
            available_bytes: 0,
            used_bytes: 0,
            cached_bytes: 0,
            swap_total_bytes: 0,
            swap_used_bytes: 0,
        }
    }
}

pub open spec fn memory_notices(reading: ReadingView) -> Seq<Seq<char>> {
    let rows = lines(text_or_empty(reading));
    read_notice(reading) + match reading.text {
        Ok(_) => if !tells_memory(rows) {
            seq!["Memory counters are unavailable or invalid."@]
        } else if amount(rows, "MemAvailable"@) is None {
            seq!["Available memory is estimated because MemAvailable is not exposed."@]
        } else {
            Seq::empty()
        },
        Err(_) => Seq::empty(),
    }
}

impl Readings {
    /// The CPUs of a sample.
    pub open spec fn cores(self, previous: Seq<(Seq<char>, CpuTimes)>) -> Seq<Core> {
        cores_of(
            cpu_table(self.stat@),
            previous,
            views(self.clocks@),
            clocks_of(blocks(text_or_empty(self.cpuinfo@))),
        )
    }

    /// The model of the CPUs.
    pub open spec fn cpu_model(self) -> Seq<char> {
        match model_of(blocks(text_or_empty(self.cpuinfo@))) {
            Some(model) => model,
            None => "Linux processor"@,
        }
    }

    /// The notices of a sample.
    pub open spec fn notices(self, previous: Seq<(Seq<char>, CpuTimes)>) -> Seq<Seq<char>> {
        uptime_notices(self.uptime@) + load_notices(self.loadavg@) + read_notice(self.cpuinfo@)
            + cpu_notices(self.stat@, self.cores(previous)) + memory_notices(self.meminfo@)
            + self.disks.notices() + self.networks.notices() + sensor_notices(
            views(self.monitors@),
            views(self.zones@),
        )
    }
}

fn sample_uptime(reading: &Reading, warnings: &mut Vec<String>) -> (result: Double)
    ensures
        result == uptime_of(reading@),
        views(final(warnings)@) == views(old(warnings)@) + uptime_notices(reading@),
{
    let ghost start = views(warnings@);
    let mut result: Double = Double::from_bits(NO_NUMBER);
    match read_required(reading, warnings) {
        Some(text) => {
            let all: Vec<char> = characters(text.as_str());
            let fields: Vec<Vec<char>> = split_whitespace(all.as_slice());
            assert(words(text@).len() == fields@.len());
            let value: Option<Double> = if fields.len() > 0 {
                assert(words(text@)[0] == fields@[0]@);
                parse_nonnegative(fields[0].as_slice())
            } else {
                None
            };
            match value {
                Some(seconds) => {
                    result = seconds;
                },
                None => {
                    warn(warnings, "System uptime could not be parsed.".to_owned());
                },
            }
        },
        None => {},
    }
    assert(views(warnings@) =~= start + uptime_notices(reading@));
    result
}

fn read_load(fields: &Vec<Vec<char>>, i: usize) -> (result: Double)
    ensures
        result == if i < fields@.len() && nonnegative(views(fields@)[i as int]) is Some {
            nonnegative(views(fields@)[i as int])->0
        } else {
            Double::no_number()
        },
{
    if i < fields.len() {
        assert(views(fields@)[i as int] == fields@[i as int]@);
        match parse_nonnegative(fields[i].as_slice()) {
            Some(value) => value,
            None => Double::from_bits(NO_NUMBER),
        }
    } else {
        Double::from_bits(NO_NUMBER)
    }
}

fn sample_load(reading: &Reading, warnings: &mut Vec<String>) -> (result: [Double; 3])
    ensures
        result@ == seq![load_of(reading@, 0), load_of(reading@, 1), load_of(reading@, 2)],
        views(final(warnings)@) == views(old(warnings)@) + load_notices(reading@),
{
    let ghost start = views(warnings@);
    let mut first: Double = Double::from_bits(NO_NUMBER);
    let mut second: Double = first;
    let mut third: Double = first;
    match read_required(reading, warnings) {
        Some(text) => {
            let all: Vec<char> = characters(text.as_str());
            let fields: Vec<Vec<char>> = split_whitespace(all.as_slice());
            assert(words(text@).len() == fields@.len());
            first = read_load(&fields, 0);
            second = read_load(&fields, 1);
            third = read_load(&fields, 2);
            if first.is_nan() || second.is_nan() || third.is_nan() {
                warn(warnings, "Load averages are unavailable or incomplete.".to_owned());
            }
        },
        None => {},
    }
    assert(views(warnings@) =~= start + load_notices(reading@));
    let result: [Double; 3] = [first, second, third];
    assert(result@ =~= seq![load_of(reading@, 0), load_of(reading@, 1), load_of(reading@, 2)]);
    result
}

fn sample_memory(reading: &Reading, warnings: &mut Vec<String>) -> (result: Memory)
    ensures
        result == memory_sampled(reading@),
        views(final(warnings)@) == views(old(warnings)@) + memory_notices(reading@),
{
    let ghost start = views(warnings@);
    let mut result: Memory = Memory::default();
    match read_required(reading, warnings) {
        Some(text) => {
            match parse_memory(text.as_str()) {
                Some((memory, estimated)) => {
                    result = memory;
                    if estimated {
                        warn(
                            warnings,
                            "Available memory is estimated because MemAvailable is not exposed.".to_owned(),
                        );
                    }
                },
                None => {
                    warn(warnings, "Memory counters are unavailable or invalid.".to_owned());
                },
            }
        },
        None => {},
    }
    assert(views(warnings@) =~= start + memory_notices(reading@));
    result
}

fn lacks_clocks(cores: &Vec<Core>) -> (result: bool)
    ensures
        result == no_clocks(cores@),
{
    let mut i: usize = 0;
    while i < cores.len()
        invariant
            i <= cores@.len(),
            forall|k: int| 0 <= k < i ==> (#[trigger] cores@[k]).frequency_mhz is None,
        decreases cores@.len() - i,
    {
        if cores[i].frequency_mhz.is_some() {
            assert(cores@[i as int].frequency_mhz is Some);
            return false;
        }
        i += 1;
    }
    cores.len() > 0
}

impl Collector {
    /// The share of all CPUs that was busy, and the CPUs one by one.
    fn sample_cpu(
        &mut self,
        readings: &Readings,
        frequencies: &BTreeMap<usize, Double>,
        warnings: &mut Vec<String>,
    ) -> (result: (Option<Double>, Vec<Core>))
        requires
            frequencies@ == clocks_of(blocks(text_or_empty(readings.cpuinfo@))),
        ensures
            final(self).previous_disks == old(self).previous_disks,
            final(self).previous_disk_time == old(self).previous_disk_time,
            final(self).previous_networks == old(self).previous_networks,
            final(self).previous_network_time == old(self).previous_network_time,
            final(self).hostname == old(self).hostname,
            final(self).kernel == old(self).kernel,
            final(self).previous_cpu@ == cpu_table(readings.stat@),
            result.0 == match lookup(cpu_table(readings.stat@), "cpu"@) {
                Some(current) => share_since(old(self).previous_cpu@, "cpu"@, current),
                None => None,
            },
            result.1@ == readings.cores(old(self).previous_cpu@),
            views(final(warnings)@) == views(old(warnings)@) + cpu_notices(
                readings.stat@,
                readings.cores(old(self).previous_cpu@),
            ),
    {
        broadcast use vstd::std_specs::btree::group_btree_axioms;

        let ghost start = views(warnings@);
        let ghost previous = self.previous_cpu@;
        let ghost list = views(readings.clocks@);
        let mut cores: Vec<Core> = Vec::new();
        let mut percent: Option<Double> = None;
        match read_required(&readings.stat, warnings) {
            Some(text) => {
                let cpu: Table<CpuTimes> = parse_cpu_times(text.as_str());
                match cpu.get("cpu") {
                    Some(current) => {
                        percent = match self.previous_cpu.get("cpu") {
                            Some(before) => cpu_percent(before, current),
                            None => None,
                        };
                    },
                    None => {
                        warn(warnings, "CPU utilization counters are unavailable.".to_owned());
                    },
                }
                let ghost all = cpu@;
                let mut i: usize = 0;
                while i < cpu.entries.len()
                    invariant
                        i <= cpu.entries@.len(),
                        all == cpu@,
                        all.len() == cpu.entries@.len(),
                        *self == *old(self),
                        previous == self.previous_cpu@,
                        list == views(readings.clocks@),
                        cores@ == cores_of(all.take(i as int), previous, list, frequencies@),
                    decreases cpu.entries@.len() - i,
                {
                    let entry: &Named<CpuTimes> = &cpu.entries[i];
                    assert(all[i as int] == (entry.name@, entry.value));
                    assert(all.take(i + 1).drop_last() =~= all.take(i as int));
                    let name: Vec<char> = characters(entry.name.as_str());
                    match parse_cpu_number(name.as_slice()) {
                        Some(id) => {
                            let share: Option<Double> = match self.previous_cpu.get(
                                entry.name.as_str(),
                            ) {
                                Some(before) => cpu_percent(before, entry.value),
                                None => None,
                            };
                            let frequency_mhz: Option<Double> = match cpu_frequency(
                                &readings.clocks,
                                id,
                            ) {
                                Some(mhz) => Some(mhz),
                                None => match frequencies.get(&id) {
                                    Some(mhz) => Some(*mhz),
                                    None => None,
                                },
                            };
                            place_core(&mut cores, Core { id, percent: share, frequency_mhz });
                        },
                        None => {},
                    }
                    i += 1;
                }
                assert(all.take(i as int) =~= all);
                self.previous_cpu = cpu;
            },
            None => {
                self.previous_cpu = Table::new();
                assert(lines(Seq::<char>::empty()) =~= Seq::<Seq<char>>::empty());
                assert(cpu_table(readings.stat@) =~= Seq::empty());
                assert(cores@ =~= readings.cores(previous));
            },
        }
        if lacks_clocks(&cores) {
            warn(warnings, "CPU clock readings are not exposed by this system.".to_owned());
        }
        assert(views(warnings@) =~= start + cpu_notices(
            readings.stat@,
            readings.cores(previous),
        ));
        (percent, cores)
    }

    /// Takes a sample. What could not be read is missing from it, and the
    /// warnings say so.
    pub fn sample(&mut self, readings: &Readings) -> (result: Snapshot)
        ensures
            result.uptime_secs == uptime_of(readings.uptime@),
            result.load@ == seq![
                load_of(readings.loadavg@, 0),
                load_of(readings.loadavg@, 1),
                load_of(readings.loadavg@, 2),
            ],
            result.cpu_percent == match lookup(cpu_table(readings.stat@), "cpu"@) {
                Some(current) => share_since(old(self).previous_cpu@, "cpu"@, current),
                None => None,
            },
            result.cores@ == readings.cores(old(self).previous_cpu@),
            result.cpu_model@ == readings.cpu_model(),
            result.hostname@ == old(self).hostname@,
            result.kernel@ == old(self).kernel@,
            result.memory == memory_sampled(readings.meminfo@),
            views(result.disks@) == readings.disks.disks(
                old(self).previous_disks@,
                old(self).previous_disk_time,
            ),
            views(result.networks@) == readings.networks.networks(
                old(self).previous_networks@,
                old(self).previous_network_time,
            ),
            sensors_in_order(views(result.sensors@)),
            views(result.sensors@).to_multiset() == listed(
                views(readings.monitors@),
                views(readings.zones@),
            ).to_multiset(),
            views(result.warnings@) == readings.notices(old(self).previous_cpu@),
            final(self).previous_cpu@ == cpu_table(readings.stat@),
            final(self).previous_disks@ == readings.disks.baselines(),
            final(self).previous_disk_time == readings.disks.time(),
            final(self).previous_networks@ == readings.networks.baselines(),
            final(self).previous_network_time == readings.networks.time(),
            final(self).hostname@ == old(self).hostname@,
            final(self).kernel@ == old(self).kernel@,
    {
        let mut warnings: Vec<String> = Vec::new();
        assert(views(warnings@) =~= Seq::<Seq<char>>::empty());
        let uptime_secs: Double = sample_uptime(&readings.uptime, &mut warnings);
        let load: [Double; 3] = sample_load(&readings.loadavg, &mut warnings);
        let (cpu_model, frequencies): (String, BTreeMap<usize, Double>) = match read_required(
            &readings.cpuinfo,
            &mut warnings,
        ) {
            Some(text) => parse_cpuinfo(text.as_str()),
            None => {
                let nothing: String = String::new();
                assert(nothing@ =~= Seq::<char>::empty());
                parse_cpuinfo(nothing.as_str())
            },
        };
        let (cpu_percent, cores): (Option<Double>, Vec<Core>) = self.sample_cpu(
            readings,
            &frequencies,
            &mut warnings,
        );
        let memory: Memory = sample_memory(&readings.meminfo, &mut warnings);
        let disks: Vec<Disk> = self.sample_disks(&readings.disks, &mut warnings);
        let networks: Vec<Network> = self.sample_networks(&readings.networks, &mut warnings);
        let sensors: Vec<Sensor> = discover_sensors(
            &readings.monitors,
            &readings.zones,
            &mut warnings,
        );
        assert(views(warnings@) =~= readings.notices(old(self).previous_cpu@));
        Snapshot {
            uptime_secs,
            load,
            cpu_percent,
            cores,
            cpu_model,
            hostname: self.hostname.clone(),
            kernel: self.kernel.clone(),
            memory,
            disks,
            networks,
            sensors,
            warnings,
        }
    }
}

// ---------------------------------------------------------------------------
// The mean clock
// ---------------------------------------------------------------------------

/// What a number counts.
pub open spec fn value_of() -> spec_fn(Double) -> int {
    |number: Double| number.value()
}

/// One step of the mean: it moves on by the clock's share of the distance, but for rounding.
proof fn lemma_mean_moves_on(mean: Double, mhz: Double, count: nat, most: nat)
    requires
        mean.finite(),
        mhz.finite(),
        !mean.negative(),
        !mhz.negative(),
        2 <= count < PRECISION,
        mean.value() <= most,
        mhz.value() <= most,
    ensures
        ({
            let next = mean.sum(mhz.difference(mean).quotient(Double::integer(count)));
            differ_by(
                next.value() * count,
                mean.value() * (count - 1) + mhz.value(),
                count * (4 * most + HIDDEN),
            )
        }),
{
    let d = mhz.difference(mean);
    let q = d.quotient(Double::integer(count));
    let next = mean.sum(q);
    lemma_share_of_distance(mean, mhz, count);
    lemma_mean_stays_between(mean, mhz, count);
    lemma_order_is_numeric(mean, mhz);
    assert(next.finite());
    lemma_order_is_numeric(mean, next);
    lemma_order_is_numeric(next, mhz);
    lemma_order_is_numeric(mhz, next);
    lemma_order_is_numeric(next, mean);
    lemma_order_is_numeric(mhz, mean);
    assert(0 <= next.value() <= most);
    lemma_sum_is_close(mean, q);
    assert(differ_by(next.value(), mean.value() + q.value(), most as int));
    lemma_error_times(next.value(), mean.value() + q.value(), most as int, count as int);
    lemma_difference_finite(mhz, mean);
    lemma_difference_is_close(mhz, mean);
    assert(differ_by(d.value(), mhz.value() - mean.value(), 2 * most as int));
    lemma_parts_of_a_number(d, count);
    let size = (abs(q.value()) + HIDDEN) * count;
    assert(size <= (most + HIDDEN) * count) by (nonlinear_arith)
        requires
            size == (abs(q.value()) + HIDDEN) * count,
            abs(q.value()) <= most,
            count >= 0,
    ;
    let v = mean.value();
    assert((v + q.value()) * count == v * count + q.value() * count) by (nonlinear_arith);
    assert(v * (count - 1) == v * count - v) by (nonlinear_arith);
    assert((most + HIDDEN) * count == most * count + HIDDEN * count) by (nonlinear_arith);
    assert(count * (4 * most + HIDDEN) == 4 * (most * count) + HIDDEN * count)
        by (nonlinear_arith);
    assert(2 * most <= most * count) by (nonlinear_arith)
        requires
            count >= 2,
            most >= 0,
    ;
}

/// The difference of two numbers that are not negative is finite.
proof fn lemma_difference_finite(a: Double, b: Double)
    requires
        a.finite(),
        b.finite(),
        !a.negative(),
        !b.negative(),
    ensures
        a.difference(b).finite(),
{
    lemma_order_is_numeric(a, b);
    let exact = a.value() - b.value();
    assert(a.value() + b.opposite().value() == exact);
    let both = a.negative() && b.opposite().negative();
    lemma_rounded_sum_grows(exact, a.value(), both, false);
    lemma_rounded_sum_grows(b.opposite().value(), exact, false, both);
    lemma_number_rounds_to_itself(a, false);
    lemma_number_rounds_to_itself(b.opposite(), false);
}

/// The mean of clocks, as many times as there are, is their sum, but for rounding, which is
/// by parts of the last binary digit of the fastest of them.
pub proof fn lemma_mean_is_the_sum_of_clocks(clocks: Seq<Double>)
    requires
        forall|k: int|
            0 <= k < clocks.len() ==> (#[trigger] clocks[k]).finite() && Double::zero().less(
                clocks[k],
            ),
        clocks.len() < PRECISION,
    ensures
        match clock_stats(clocks) {
            Some(stats) => {
                &&& stats.average_mhz.finite()
                &&& differ_by(
                    stats.average_mhz.value() * clocks.len(),
                    added(clocks, value_of()),
                    clocks.len() * (clocks.len() * (4 * stats.max_mhz.value() + HIDDEN)),
                )
            },
            None => clocks.len() == 0,
        },
    decreases clocks.len(),
{
    if clocks.len() > 0 {
        let rest = clocks.drop_last();
        let n = clocks.len();
        let mhz = clocks.last();
        assert(forall|k: int| 0 <= k < rest.len() ==> rest[k] == #[trigger] clocks[k]);
        assert(clocks[n - 1] == mhz);
        lemma_mean_clock(clocks);
        lemma_mean_clock(rest);
        lemma_mean_is_the_sum_of_clocks(rest);
        let most = clock_stats(clocks)->0.max_mhz.value();
        lemma_clock_stats(clocks, n - 1);
        lemma_order_is_numeric(mhz, clock_stats(clocks)->0.max_mhz);
        lemma_order_is_numeric(Double::zero(), mhz);
        assert(units(0) == 0);
        assert(0 < mhz.value() <= most);
        let parts = 4 * most + HIDDEN;
        match clock_stats(rest) {
            None => {
                assert(rest =~= Seq::empty());
                assert(added(rest, value_of()) == 0);
            },
            Some(stats) => {
                let before = stats.average_mhz;
                let less = 4 * stats.max_mhz.value() + HIDDEN;
                lemma_order_is_numeric(stats.max_mhz, clock_stats(clocks)->0.max_mhz);
                lemma_order_is_numeric(before, stats.max_mhz);
                lemma_order_is_numeric(Double::zero(), before);
                assert(Double::zero().less(before));
                lemma_mean_moves_on(before, mhz, n, most as nat);
                assert(before.value() * (n - 1) == before.value() * rest.len());
                assert((n - 1) * ((n - 1) * less) + n * parts <= n * (n * parts))
                    by (nonlinear_arith)
                    requires
                        n >= 1,
                        0 <= less <= parts,
                ;
            },
        }
    }
}

/// The mean of clocks does not depend on their order, but for rounding.
pub proof fn lemma_clock_stats_in_any_order(clocks: Seq<Double>, others: Seq<Double>)
    requires
        clocks.to_multiset() == others.to_multiset(),
        forall|k: int|
            0 <= k < clocks.len() ==> (#[trigger] clocks[k]).finite() && Double::zero().less(
                clocks[k],
            ),
        forall|k: int|
            0 <= k < others.len() ==> (#[trigger] others[k]).finite() && Double::zero().less(
                others[k],
            ),
        0 < clocks.len() < PRECISION,
    ensures
        clock_stats(clocks) is Some && clock_stats(others) is Some,
        ({
            let a = clock_stats(clocks)->0;
            let b = clock_stats(others)->0;
            let n = clocks.len();
            let most = a.max_mhz.value() + b.max_mhz.value();
            differ_by(
                a.average_mhz.value() * n,
                b.average_mhz.value() * n,
                n * (n * (4 * most + 2 * HIDDEN)),
            )
        }),
{
    lemma_order_does_not_matter(clocks, others, value_of());
    lemma_mean_is_the_sum_of_clocks(clocks);
    lemma_mean_is_the_sum_of_clocks(others);
    let n = clocks.len();
    let a = 4 * clock_stats(clocks)->0.max_mhz.value() + HIDDEN;
    let b = 4 * clock_stats(others)->0.max_mhz.value() + HIDDEN;
    assert(n * (n * a) + n * (n * b) == n * (n * (a + b))) by (nonlinear_arith);
}

// ---------------------------------------------------------------------------
// What a sample says
// ---------------------------------------------------------------------------

/// The time that a system is up is the first number of its file; what else stands there does
/// not matter.
pub proof fn lemma_uptime_is_the_first_number(path: Seq<char>, first: Seq<char>, rest: Seq<char>)
    requires
        first.len() > 0 && is_solid(first),
    ensures
        ({
            let reading = ReadingView { path, text: Ok(first.push(' ') + rest) };
            &&& nonnegative(first) matches Some(seconds) ==> uptime_of(reading) == seconds
            &&& nonnegative(first) is Some <==> uptime_notices(reading).len() == 0
            &&& nonnegative(first) is None ==> uptime_of(reading).nan()
        }),
{
    lemma_words_are_parted(first, ' ', rest);
    lemma_one_word(first);
    let text = first.push(' ') + rest;
    assert(words(text)[0] == first);
}

/// The loads of the last minute, five minutes and fifteen minutes are the first three numbers of
/// their file, in this order, and nothing is said of them where all can be read.
pub proof fn lemma_loads_are_the_first_numbers(
    path: Seq<char>,
    a: Seq<char>,
    b: Seq<char>,
    c: Seq<char>,
    rest: Seq<char>,
)
    requires
        a.len() > 0 && is_solid(a),
        b.len() > 0 && is_solid(b),
        c.len() > 0 && is_solid(c),
    ensures
        ({
            let reading = ReadingView {
                path,
                text: Ok(a.push(' ') + (b.push(' ') + (c.push(' ') + rest))),
            };
            &&& nonnegative(a) matches Some(load) ==> load_of(reading, 0) == load
            &&& nonnegative(b) matches Some(load) ==> load_of(reading, 1) == load
            &&& nonnegative(c) matches Some(load) ==> load_of(reading, 2) == load
            &&& (nonnegative(a) is Some && nonnegative(b) is Some && nonnegative(c) is Some)
                <==> load_notices(reading).len() == 0
        }),
{
    let third = c.push(' ') + rest;
    let second = b.push(' ') + third;
    let text = a.push(' ') + second;
    lemma_words_are_parted(a, ' ', second);
    lemma_words_are_parted(b, ' ', third);
    lemma_words_are_parted(c, ' ', rest);
    lemma_one_word(a);
    lemma_one_word(b);
    lemma_one_word(c);
    assert(words(text)[0] == a);
    assert(words(text)[1] == b);
    assert(words(text)[2] == c);
    assert(Double::no_number().nan());
}

/// Whether all amounts of memory are zero.
pub open spec fn is_no_memory(memory: Memory) -> bool {
    &&& memory.total_bytes == 0 && memory.used_bytes == 0 && memory.available_bytes == 0
    &&& memory.cached_bytes == 0 && memory.swap_total_bytes == 0 && memory.swap_used_bytes == 0
}

/// A file that cannot be read is named with the reason, and its figures are missing.
pub proof fn lemma_unread_files_are_named(path: Seq<char>, error: Seq<char>)
    ensures
        ({
            let reading = ReadingView { path, text: Err(error) };
            let notice = seq!["Cannot read "@ + path + ": "@ + error];
            &&& uptime_of(reading).nan() && uptime_notices(reading) == notice
            &&& load_of(reading, 0).nan() && load_of(reading, 1).nan() && load_of(reading, 2).nan()
            &&& load_notices(reading) == notice
            &&& is_no_memory(memory_sampled(reading)) && memory_notices(reading) == notice
            &&& cpu_table(reading).len() == 0
        }),
{
    let reading = ReadingView { path, text: Err(error) };
    let notice = seq!["Cannot read "@ + path + ": "@ + error];
    assert(Double::no_number().nan());
    assert(uptime_notices(reading) =~= notice);
    assert(load_notices(reading) =~= notice);
    assert(memory_notices(reading) =~= notice);
    assert(lines(Seq::empty()).len() == 0);
}

/// Nothing is said of CPUs where their counters can be read and one of them has a clock.
pub proof fn lemma_what_is_said_of_cpus(stat: ReadingView, cores: Seq<Core>)
    requires
        stat.text is Ok,
    ensures
        cpu_notices(stat, cores).len() == (if lookup(cpu_table(stat), "cpu"@) is None {
            1nat
        } else {
            0
        }) + (if cores.len() > 0 && (forall|i: int|
            0 <= i < cores.len() ==> (#[trigger] cores[i]).frequency_mhz is None) {
            1nat
        } else {
            0
        }),
        lookup(cpu_table(stat), "cpu"@) is None ==> cpu_notices(stat, cores)[0]
            == "CPU utilization counters are unavailable."@,
{
}

/// What is said of memory: that it cannot be read, or that what is available is an estimate.
pub proof fn lemma_what_is_said_of_memory(reading: ReadingView)
    requires
        reading.text is Ok,
    ensures
        ({
            let rows = lines(text_or_empty(reading));
            let exact = amount(rows, "MemAvailable"@) is Some;
            &&& tells_memory(rows) && exact <==> memory_notices(reading).len() == 0
            &&& tells_memory(rows) && !exact ==> memory_notices(reading) == seq![
                "Available memory is estimated because MemAvailable is not exposed."@,
            ]
            &&& !tells_memory(rows) ==> memory_notices(reading) == seq![
                "Memory counters are unavailable or invalid."@,
            ]
            &&& !tells_memory(rows) ==> is_no_memory(memory_sampled(reading))
        }),
{
}

} // verus!
