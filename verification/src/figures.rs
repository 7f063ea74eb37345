//! The figures of a sample that are shown, and their texts.

use crate::accuracy::{
    added, differ_by, is_percentage, lemma_order_does_not_matter, lemma_parts_of_a_number,
    lemma_percentage, lemma_sum_is_close, lemma_sum_is_finite,
};
use crate::amounts::{amount_text, lemma_amount_is_shown_in_its_unit, push_amount, shows_amount};
use crate::arithmetic::lemma_share;
use crate::cpus::Core;
use crate::disks::{Disk, DiskView};
use crate::double::{lemma_order_is_numeric, units, Double, FINEST, HIDDEN};
use crate::fixed::{fixed_text, push_fixed};
use crate::metrics::Snapshot;
use crate::networks::{Network, NetworkView};
use crate::sensors::{Sensor, SensorView};
use crate::text::{decimal, push_decimal, same_text, views};
use crate::writing::{lemma_fixed_writes_the_number, writes_number};
use vstd::arithmetic::power::lemma_pow0;
use vstd::arithmetic::power2::{lemma_pow2_unfold, pow2};
use vstd::math::abs;
use vstd::prelude::*;

verus! {

// ---------------------------------------------------------------------------
// Shares
// ---------------------------------------------------------------------------

/// A part of a whole in percent, where there is a whole.
pub open spec fn share_of(part: u64, whole: u64) -> Option<Double> {
    if whole > 0 {
        Some(
            Double::integer(part as nat).quotient(Double::integer(whole as nat)).product(
                Double::integer(100),
            ),
        )
    } else {
        None
    }
}

fn share(part: u64, whole: u64) -> (result: Option<Double>)
    ensures
        result == share_of(part, whole),
{
    if whole > 0 {
        Some(
            Double::from_integer(part as u128).div(Double::from_integer(whole as u128)).mul(
                Double::from_integer(100),
            ),
        )
    } else {
        None
    }
}

/// The share of memory that is used, in percent.
pub fn memory_percent(snapshot: &Snapshot) -> (result: Option<Double>)
    ensures
        result == share_of(snapshot.memory.used_bytes, snapshot.memory.total_bytes),
{
    share(snapshot.memory.used_bytes, snapshot.memory.total_bytes)
}

/// The share of swap that is used, in percent.
pub fn swap_percent(snapshot: &Snapshot) -> (result: Option<Double>)
    ensures
        result == share_of(snapshot.memory.swap_used_bytes, snapshot.memory.swap_total_bytes),
{
    share(snapshot.memory.swap_used_bytes, snapshot.memory.swap_total_bytes)
}

/// A share is a number from 0 to 100, where the part is one of the whole.
pub proof fn lemma_share_is_a_percentage(part: u64, whole: u64)
    requires
        part <= whole,
    ensures
        match share_of(part, whole) {
            Some(share) => share.finite() && Double::zero().at_most(share) && share.at_most(
                Double::integer(100),
            ),
            None => whole == 0,
        },
{
    if whole > 0 {
        lemma_share(part as nat, whole as nat);
    }
}

// ---------------------------------------------------------------------------
// Clocks and temperatures
// ---------------------------------------------------------------------------

/// The clock of a CPU, where it is known.
pub open spec fn clock(core: Core) -> Option<Double> {
    match core.frequency_mhz {
        Some(mhz) => if mhz.finite() {
            Some(mhz)
        } else {
            None
        },
        None => None,
    }
}

/// How many clocks are known, and their sum.
pub open spec fn clock_sum(cores: Seq<Core>) -> (nat, Double)
    decreases cores.len(),
{
    if cores.len() == 0 {
        (0, Double::zero().opposite())
    } else {
        let (count, sum) = clock_sum(cores.drop_last());
        match clock(cores.last()) {
            Some(mhz) => (count + 1, sum.sum(mhz)),
            None => (count, sum),
        }
    }
}

/// The mean of the clocks that are known.
pub open spec fn mean_clock(cores: Seq<Core>) -> Option<Double> {
    let (count, sum) = clock_sum(cores);
    if count > 0 {
        Some(sum.quotient(Double::integer(count)))
    } else {
        None
    }
}

/// The mean of the clocks that are known.
pub fn cpu_frequency(snapshot: &Snapshot) -> (result: Option<Double>)
    ensures
        result == mean_clock(snapshot.cores@),
{
    let ghost all = snapshot.cores@;
    let mut count: usize = 0;
    let mut sum: Double = Double::from_bits(0).neg();
    let mut i: usize = 0;
    while i < snapshot.cores.len()
        invariant
            i <= snapshot.cores@.len(),
            all == snapshot.cores@,
            count <= i,
            (count as nat, sum) == clock_sum(all.take(i as int)),
        decreases snapshot.cores@.len() - i,
    {
        assert(all.take(i + 1).drop_last() =~= all.take(i as int));
        if let Some(mhz) = snapshot.cores[i].frequency_mhz {
            if mhz.is_finite() {
                sum = sum.add(mhz);
                count += 1;
            }
        }
        i += 1;
    }
    assert(all.take(i as int) =~= all);
    if count > 0 {
        Some(sum.div(Double::from_integer(count as u128)))
    } else {
        None
    }
}

/// The hottest sensor of a CPU.
pub open spec fn hottest_cpu(sensors: Seq<SensorView>) -> Option<Double>
    decreases sensors.len(),
{
    if sensors.len() == 0 {
        None
    } else {
        let before = hottest_cpu(sensors.drop_last());
        let sensor = sensors.last();
        if !sensor.is_cpu || !sensor.celsius.finite() {
            before
        } else {
            match before {
                Some(celsius) => Some(celsius.maximum(sensor.celsius)),
                None => Some(sensor.celsius),
            }
        }
    }
}

/// The hottest sensor of a CPU.
pub fn cpu_temp(snapshot: &Snapshot) -> (result: Option<Double>)
    ensures
        result == hottest_cpu(views(snapshot.sensors@)),
{
    let ghost all = views(snapshot.sensors@);
    let mut hottest: Option<Double> = None;
    let mut i: usize = 0;
    while i < snapshot.sensors.len()
        invariant
            i <= snapshot.sensors@.len(),
            all == views(snapshot.sensors@),
            hottest == hottest_cpu(all.take(i as int)),
        decreases snapshot.sensors@.len() - i,
    {
        let sensor: &Sensor = &snapshot.sensors[i];
        assert(all[i as int] == sensor@);
        assert(all.take(i + 1).drop_last() =~= all.take(i as int));
        if sensor.is_cpu && sensor.celsius.is_finite() {
            hottest = match hottest {
                Some(celsius) => Some(celsius.max(sensor.celsius)),
                None => Some(sensor.celsius),
            };
        }
        i += 1;
    }
    assert(all.take(i as int) =~= all);
    hottest
}

/// The share of busy time of the first CPU of a number.
pub open spec fn core_share(cores: Seq<Core>, id: usize) -> Option<Double>
    decreases cores.len(),
{
    if cores.len() == 0 {
        None
    } else if cores[0].id == id {
        cores[0].percent
    } else {
        core_share(cores.skip(1), id)
    }
}

/// The share of busy time of the CPU of a number.
pub fn core_percent(snapshot: &Snapshot, id: usize) -> (result: Option<Double>)
    ensures
        result == core_share(snapshot.cores@, id),
{
    let ghost all = snapshot.cores@;
    let mut i: usize = 0;
    assert(all.skip(0) =~= all);
    while i < snapshot.cores.len()
        invariant
            i <= snapshot.cores@.len(),
            all == snapshot.cores@,
            core_share(all, id) == core_share(all.skip(i as int), id),
        decreases snapshot.cores@.len() - i,
    {
        assert(all.skip(i as int).skip(1) =~= all.skip(i + 1));
        if snapshot.cores[i].id == id {
            return snapshot.cores[i].percent;
        }
        i += 1;
    }
    None
}

/// The temperature at the first sensor of a name.
pub open spec fn celsius_at(sensors: Seq<SensorView>, id: Seq<char>) -> Option<Double>
    decreases sensors.len(),
{
    if sensors.len() == 0 {
        None
    } else if sensors[0].id == id {
        Some(sensors[0].celsius)
    } else {
        celsius_at(sensors.skip(1), id)
    }
}

/// The temperature at the sensor of a name.
pub fn sensor_celsius(snapshot: &Snapshot, id: &str) -> (result: Option<Double>)
    ensures
        result == celsius_at(views(snapshot.sensors@), id@),
{
    let ghost all = views(snapshot.sensors@);
    let mut i: usize = 0;
    assert(all.skip(0) =~= all);
    while i < snapshot.sensors.len()
        invariant
            i <= snapshot.sensors@.len(),
            all == views(snapshot.sensors@),
            celsius_at(all, id@) == celsius_at(all.skip(i as int), id@),
        decreases snapshot.sensors@.len() - i,
    {
        let sensor: &Sensor = &snapshot.sensors[i];
        assert(all[i as int] == sensor@);
        assert(all.skip(i as int).skip(1) =~= all.skip(i + 1));
        if same_text(sensor.id.as_str(), id) {
            return Some(sensor.celsius);
        }
        i += 1;
    }
    None
}

// ---------------------------------------------------------------------------
// Rates
// ---------------------------------------------------------------------------

/// The sum of rates, where all of them are known.
pub open spec fn added_up(rates: Seq<Option<Double>>) -> Option<Double>
    decreases rates.len(),
{
    if rates.len() == 0 {
        Some(Double::zero())
    } else {
        match (added_up(rates.drop_last()), rates.last()) {
            (Some(sum), Some(rate)) => if rate.finite() {
                Some(sum.sum(rate))
            } else {
                None
            },
            _ => None,
        }
    }
}

/// The sum of rates, where there are any and all of them are known.
pub open spec fn total_rate(rates: Seq<Option<Double>>) -> Option<Double> {
    if rates.len() == 0 {
        None
    } else {
        added_up(rates)
    }
}

/// The sum of rates, where there are any and all of them are known.
pub fn sum_rates(rates: &Vec<Option<Double>>) -> (result: Option<Double>)
    ensures
        result == total_rate(rates@),
{
    if rates.len() == 0 {
        return None;
    }
    let mut sum: Option<Double> = Some(Double::from_bits(0));
    let mut i: usize = 0;
    while i < rates.len()
        invariant
            i <= rates@.len(),
            sum == added_up(rates@.take(i as int)),
        decreases rates@.len() - i,
    {
        assert(rates@.take(i + 1).drop_last() =~= rates@.take(i as int));
        sum = match (sum, rates[i]) {
            (Some(known), Some(rate)) => if rate.is_finite() {
                Some(known.add(rate))
            } else {
                None
            },
            _ => None,
        };
        i += 1;
    }
    assert(rates@.take(i as int) =~= rates@);
    sum
}

/// A sum of rates is never one of only some of them: where one is missing, there is
/// none.
pub proof fn lemma_no_partial_totals(rates: Seq<Option<Double>>, i: int)
    requires
        0 <= i < rates.len(),
        match rates[i] {
            Some(rate) => !rate.finite(),
            None => true,
        },
    ensures
        total_rate(rates) is None,
    decreases rates.len(),
{
    if i < rates.len() - 1 {
        assert(rates.drop_last()[i] == rates[i]);
        lemma_no_partial_totals(rates.drop_last(), i);
    }
}

/// The rates of a disk of a name, or of all where it is empty.
pub open spec fn disk_rates(disks: Seq<DiskView>, name: Seq<char>, write: bool) -> Seq<
    Option<Double>,
>
    decreases disks.len(),
{
    if disks.len() == 0 {
        Seq::empty()
    } else {
        let before = disk_rates(disks.drop_last(), name, write);
        let disk = disks.last();
        if name.len() > 0 && disk.name != name {
            before
        } else if write {
            before.push(disk.write_bytes_per_sec)
        } else {
            before.push(disk.read_bytes_per_sec)
        }
    }
}

/// What is read from a disk, or written to it, in bytes per second; from all disks
/// where the name is empty.
pub fn disk_rate(snapshot: &Snapshot, name: &str, write: bool) -> (result: Option<Double>)
    ensures
        result == total_rate(disk_rates(views(snapshot.disks@), name@, write)),
{
    let ghost all = views(snapshot.disks@);
    let every: bool = name.unicode_len() == 0;
    let mut rates: Vec<Option<Double>> = Vec::new();
    let mut i: usize = 0;
    assert(rates@ =~= disk_rates(all.take(0), name@, write));
    while i < snapshot.disks.len()
        invariant
            i <= snapshot.disks@.len(),
            all == views(snapshot.disks@),
            every == (name@.len() == 0),
            rates@ == disk_rates(all.take(i as int), name@, write),
        decreases snapshot.disks@.len() - i,
    {
        let disk: &Disk = &snapshot.disks[i];
        assert(all[i as int] == disk@);
        assert(all.take(i + 1).drop_last() =~= all.take(i as int));
        if every || same_text(disk.name.as_str(), name) {
            rates.push(
                if write {
                    disk.write_bytes_per_sec
                } else {
                    disk.read_bytes_per_sec
                },
            );
        }
        i += 1;
    }
    assert(all.take(i as int) =~= all);
    sum_rates(&rates)
}

/// The rates of an interface of a name, or of all where it is empty.
pub open spec fn network_rates(
    networks: Seq<NetworkView>,
    name: Seq<char>,
    transmit: bool,
) -> Seq<Option<Double>>
    decreases networks.len(),
{
    if networks.len() == 0 {
        Seq::empty()
    } else {
        let before = network_rates(networks.drop_last(), name, transmit);
        let network = networks.last();
        if name.len() > 0 && network.name != name {
            before
        } else if transmit {
            before.push(network.transmitted_bytes_per_sec)
        } else {
            before.push(network.received_bytes_per_sec)
        }
    }
}

/// What an interface receives, or transmits, in bytes per second; all interfaces
/// where the name is empty.
pub fn network_rate(snapshot: &Snapshot, name: &str, transmit: bool) -> (result: Option<Double>)
    ensures
        result == total_rate(network_rates(views(snapshot.networks@), name@, transmit)),
{
    let ghost all = views(snapshot.networks@);
    let every: bool = name.unicode_len() == 0;
    let mut rates: Vec<Option<Double>> = Vec::new();
    let mut i: usize = 0;
    assert(rates@ =~= network_rates(all.take(0), name@, transmit));
    while i < snapshot.networks.len()
        invariant
            i <= snapshot.networks@.len(),
            all == views(snapshot.networks@),
            every == (name@.len() == 0),
            rates@ == network_rates(all.take(i as int), name@, transmit),
        decreases snapshot.networks@.len() - i,
    {
        let network: &Network = &snapshot.networks[i];
        assert(all[i as int] == network@);
        assert(all.take(i + 1).drop_last() =~= all.take(i as int));
        if every || same_text(network.name.as_str(), name) {
            rates.push(
                if transmit {
                    network.transmitted_bytes_per_sec
                } else {
                    network.received_bytes_per_sec
                },
            );
        }
        i += 1;
    }
    assert(all.take(i as int) =~= all);
    sum_rates(&rates)
}

// ---------------------------------------------------------------------------
// Texts
// ---------------------------------------------------------------------------

/// What stands for a figure that is missing.
pub open spec fn missing() -> Seq<char> {
    "Unavailable"@
}

/// A number with so many places.
pub open spec fn number_text(value: Double, decimals: nat) -> Seq<char> {
    if value.finite() {
        value.fixed(decimals)
    } else {
        missing()
    }
}

/// A number with so many places.
pub fn number(value: Double, decimals: u32) -> (result: String)
    ensures
        result@ == number_text(value, decimals as nat),
{
    if !value.is_finite() {
        return "Unavailable".to_owned();
    }
    let mut text: String = String::new();
    push_fixed(&mut text, value, decimals);
    assert(text@ =~= value.fixed(decimals as nat));
    text
}

/// A share in percent.
pub open spec fn percent_text(value: Option<Double>) -> Seq<char> {
    match value {
        Some(share) => share.fixed(1) + "%"@,
        None => missing(),
    }
}

/// A share in percent.
pub fn percent(value: Option<Double>) -> (result: String)
    ensures
        result@ == percent_text(value),
{
    match value {
        Some(share) => fixed_text(share, 1, "%"),
        None => "Unavailable".to_owned(),
    }
}

/// A clock, given in megahertz.
pub open spec fn frequency_text(value: Option<Double>) -> Seq<char> {
    match value {
        Some(mhz) => mhz.quotient(Double::integer(1000)).fixed(2) + " GHz"@,
        None => "Clock unavailable"@,
    }
}

/// A clock, given in megahertz.
pub fn frequency(value: Option<Double>) -> (result: String)
    ensures
        result@ == frequency_text(value),
{
    match value {
        Some(mhz) => fixed_text(mhz.div(Double::from_integer(1000)), 2, " GHz"),
        None => "Clock unavailable".to_owned(),
    }
}

/// A temperature.
pub open spec fn temperature_text(value: Option<Double>) -> Seq<char> {
    match value {
        Some(celsius) => celsius.fixed(1) + " °C"@,
        None => missing(),
    }
}

/// A temperature.
pub fn temperature(value: Option<Double>) -> (result: String)
    ensures
        result@ == temperature_text(value),
{
    match value {
        Some(celsius) => fixed_text(celsius, 1, " °C"),
        None => "Unavailable".to_owned(),
    }
}

/// An amount of bytes in the first binary unit that it does not fill.
pub open spec fn bytes_text(value: Double) -> Seq<char> {
    if value.finite() {
        amount_text(value.maximum(Double::zero()), 0, 5)
    } else {
        missing()
    }
}

/// An amount of bytes in the first binary unit that it does not fill.
pub fn bytes(value: Double) -> (result: String)
    ensures
        result@ == bytes_text(value),
{
    if !value.is_finite() {
        return "Unavailable".to_owned();
    }
    let mut text: String = String::new();
    push_amount(&mut text, value.max(Double::from_bits(0)), 0, 5);
    assert(text@ =~= bytes_text(value));
    text
}

/// A count of bytes in the first binary unit that it does not fill.
pub fn byte_count(count: u64) -> (result: String)
    ensures
        result@ == bytes_text(Double::integer(count as nat)),
{
    bytes(Double::from_integer(count as u128))
}

/// A rate.
pub open spec fn rate_text(value: Option<Double>) -> Seq<char> {
    match value {
        Some(rate) => bytes_text(rate) + "/s"@,
        None => missing(),
    }
}

/// A rate.
pub fn rate(value: Option<Double>) -> (result: String)
    ensures
        result@ == rate_text(value),
{
    match value {
        Some(rate) => {
            let mut text: String = bytes(rate);
            text.append("/s");
            text
        },
        None => "Unavailable".to_owned(),
    }
}

/// How long the system is up.
pub open spec fn uptime_text(seconds: Double) -> Seq<char> {
    let whole = seconds.maximum(Double::zero()).truncated();
    let days = whole / 86400;
    let hours = whole % 86400 / 3600;
    let minutes = whole % 3600 / 60;
    if !seconds.finite() {
        missing()
    } else if days > 0 {
        decimal(days) + "d "@ + decimal(hours) + "h "@ + decimal(minutes) + "m"@
    } else {
        decimal(hours) + "h "@ + decimal(minutes) + "m"@
    }
}

/// How long the system is up.
pub fn uptime(seconds: Double) -> (result: String)
    ensures
        result@ == uptime_text(seconds),
{
    if !seconds.is_finite() {
        return "Unavailable".to_owned();
    }
    let whole: u64 = seconds.max(Double::from_bits(0)).truncate();
    let days: u64 = whole / 86400;
    let hours: u64 = whole % 86400 / 3600;
    let minutes: u64 = whole % 3600 / 60;
    let mut text: String = String::new();
    if days > 0 {
        push_decimal(&mut text, days);
        text.append("d ");
    }
    push_decimal(&mut text, hours);
    text.append("h ");
    push_decimal(&mut text, minutes);
    text.append("m");
    assert(text@ =~= uptime_text(seconds));
    text
}

/// Whether a sensor has reached the temperature that it is not to reach.
pub open spec fn is_critical(sensor: SensorView) -> bool {
    match sensor.critical_celsius {
        Some(limit) => limit.at_most(sensor.celsius),
        None => false,
    }
}

/// Whether a sensor has reached the temperature that it is not to reach.
pub fn critical(sensor: &Sensor) -> (result: bool)
    ensures
        result == is_critical(sensor@),
{
    match sensor.critical_celsius {
        Some(limit) => limit.is_at_most(sensor.celsius),
        None => false,
    }
}

/// What is said of the temperature that a sensor is not to reach.
pub open spec fn threshold_text(sensor: SensorView) -> Seq<char> {
    match sensor.critical_celsius {
        Some(limit) => if is_critical(sensor) {
            "At or above critical threshold ("@ + limit.fixed(0) + " °C)"@
        } else {
            "Below reported critical threshold ("@ + limit.fixed(0) + " °C)"@
        },
        None => "Critical threshold not reported"@,
    }
}

/// What is said of the temperature that a sensor is not to reach.
pub fn threshold(sensor: &Sensor) -> (result: String)
    ensures
        result@ == threshold_text(sensor@),
{
    match sensor.critical_celsius {
        Some(limit) => {
            let mut text: String = if critical(sensor) {
                "At or above critical threshold (".to_owned()
            } else {
                "Below reported critical threshold (".to_owned()
            };
            push_fixed(&mut text, limit, 0);
            text.append(" °C)");
            text
        },
        None => "Critical threshold not reported".to_owned(),
    }
}

/// Whether an interface is up, in words.
pub fn link_state(is_up: Option<bool>) -> (result: &'static str)
    ensures
        result@ == match is_up {
            Some(true) => "Up"@,
            Some(false) => "Down"@,
            None => "Unknown"@,
        },
{
    match is_up {
        Some(true) => "Up",
        Some(false) => "Down",
        None => "Unknown",
    }
}

// ---------------------------------------------------------------------------
// Laws
// ---------------------------------------------------------------------------

/// A share is the part of the whole in percent, but for rounding.
pub proof fn lemma_share_is_the_part_of_the_whole(part: u64, whole: u64)
    requires
        part <= whole,
        whole > 0,
    ensures
        match share_of(part, whole) {
            Some(share) => is_percentage(share, part as nat, whole as nat),
            None => false,
        },
{
    lemma_percentage(part as nat, whole as nat);
}

/// What a clock counts, where it is a number.
pub open spec fn clock_value() -> spec_fn(Core) -> int {
    |core: Core|
        match core.frequency_mhz {
            Some(mhz) => if mhz.finite() {
                mhz.value()
            } else {
                0
            },
            None => 0,
        }
}

/// What a clock counts without its sign, where it is a number.
pub open spec fn clock_weight() -> spec_fn(Core) -> int {
    |core: Core| abs(clock_value()(core)) as int
}

/// One for a clock that is a number.
pub open spec fn clock_number() -> spec_fn(Core) -> int {
    |core: Core|
        match core.frequency_mhz {
            Some(mhz) => if mhz.finite() {
                1
            } else {
                0
            },
            None => 0,
        }
}

proof fn lemma_clock_sum(cores: Seq<Core>)
    requires
        cores.len() <= 0x4_0000_0000_0000,
        added(cores, clock_weight()) <= pow2(2090),
    ensures
        ({
            let (count, sum) = clock_sum(cores);
            let weight = added(cores, clock_weight());
            &&& count == added(cores, clock_number())
            &&& count <= cores.len()
            &&& sum.finite()
            &&& weight >= 0
            &&& abs(sum.value()) <= 2 * weight
            &&& differ_by(sum.value(), added(cores, clock_value()), 4 * (count * weight))
            &&& abs(added(cores, clock_value())) <= weight
        }),
    decreases cores.len(),
{
    if cores.len() > 0 {
        let rest = cores.drop_last();
        let core = cores.last();
        let (count, sum) = clock_sum(rest);
        let weight = added(rest, clock_weight());
        assert(abs(clock_value()(core)) >= 0);
        assert(added(cores, clock_weight()) >= weight);
        lemma_clock_sum(rest);
        if let Some(mhz) = clock(core) {
            let more = added(cores, clock_weight());
            let total = added(cores, clock_value());
            let exact = sum.value() + mhz.value();
            assert(clock_value()(core) == mhz.value());
            assert(abs(exact) <= 2 * more);
            lemma_pow2_unfold(2091);
            lemma_sum_is_finite(sum, mhz, 2091);
            lemma_sum_is_close(sum, mhz);
            let next = sum.sum(mhz).value();
            assert(differ_by(next, exact, 4 * more));
            assert(differ_by(exact, total, 4 * (count * weight)));
            assert((count + 1) * more == count * more + more) by (nonlinear_arith);
            assert(count * weight <= count * more) by (nonlinear_arith)
                requires
                    weight <= more,
                    count >= 0,
            ;
            assert(differ_by(next, total, 4 * ((count + 1) * more)));
            assert((count + 1) * more <= 0x4_0000_0000_0000 * more) by (nonlinear_arith)
                requires
                    count + 1 <= 0x4_0000_0000_0000,
                    more >= 0,
            ;
        } else {
            assert(clock_value()(core) == 0);
        }
    } else {
        assert(units(0) == 0);
    }
}

/// The mean of the clocks, as many times as there are known ones, is their sum, but for
/// rounding. Left out are more CPUs than any machine can list, and clocks that are out of
/// range together.
pub proof fn lemma_mean_is_the_sum_over_the_number(cores: Seq<Core>)
    requires
        cores.len() <= 0x4_0000_0000_0000,
        added(cores, clock_weight()) <= pow2(2090),
    ensures
        ({
            let count = added(cores, clock_number());
            let weight = added(cores, clock_weight());
            &&& mean_clock(cores) is None <==> count == 0
            &&& mean_clock(cores) matches Some(mean) ==> {
                &&& mean.finite()
                &&& differ_by(
                    mean.value() * count,
                    added(cores, clock_value()),
                    8 * (count * (weight + 0x4_0000_0000_0000)),
                )
            }
        }),
{
    let (count, sum) = clock_sum(cores);
    let weight = added(cores, clock_weight());
    lemma_clock_sum(cores);
    if count > 0 {
        lemma_parts_of_a_number(sum, count);
        let mean = sum.quotient(Double::integer(count));
        let v = mean.value();
        let size = abs(v) * count;
        let h = HIDDEN as nat;
        assert((abs(v) + h) * count == size + h * count) by (nonlinear_arith)
            requires
                size == abs(v) * count,
        ;
        assert(abs(v * count) == size) by {
            if v < 0 {
                assert(v * count == -((-v) * count)) by (nonlinear_arith);
            }
            assert(abs(v) * count >= 0) by (nonlinear_arith)
                requires
                    abs(v) >= 0,
                    count >= 0,
            ;
        }
        assert(size <= 4 * weight + 2 * count);
        assert(count * (weight + 0x4_0000_0000_0000) == count * weight + 0x4_0000_0000_0000 * count)
            by (nonlinear_arith);
        assert(weight <= count * weight) by (nonlinear_arith)
            requires
                count >= 1,
                weight >= 0,
        ;
    }
}

/// The mean of the clocks does not depend on the order of the CPUs, but for rounding.
pub proof fn lemma_mean_in_any_order(cores: Seq<Core>, others: Seq<Core>)
    requires
        cores.to_multiset() == others.to_multiset(),
        cores.len() <= 0x4_0000_0000_0000,
        added(cores, clock_weight()) <= pow2(2090),
    ensures
        ({
            let count = added(cores, clock_number());
            let weight = added(cores, clock_weight());
            &&& mean_clock(cores) is Some <==> mean_clock(others) is Some
            &&& mean_clock(cores) is Some ==> differ_by(
                mean_clock(cores)->0.value() * count,
                mean_clock(others)->0.value() * count,
                16 * (count * (weight + 0x4_0000_0000_0000)),
            )
        }),
{
    lemma_order_does_not_matter(cores, others, clock_number());
    lemma_order_does_not_matter(cores, others, clock_weight());
    lemma_order_does_not_matter(cores, others, clock_value());
    lemma_mean_is_the_sum_over_the_number(cores);
    lemma_mean_is_the_sum_over_the_number(others);
}

/// What a rate counts, where it is known.
pub open spec fn rate_value() -> spec_fn(Option<Double>) -> int {
    |rate: Option<Double>|
        match rate {
            Some(number) => number.value(),
            None => 0,
        }
}

/// What a rate counts without its sign.
pub open spec fn rate_weight() -> spec_fn(Option<Double>) -> int {
    |rate: Option<Double>| abs(rate_value()(rate)) as int
}

/// Whether all rates are known.
pub open spec fn all_known(rates: Seq<Option<Double>>) -> bool {
    forall|i: int| 0 <= i < rates.len() ==> (#[trigger] rates[i]) is Some && rates[i]->0.finite()
}

proof fn lemma_added_up(rates: Seq<Option<Double>>)
    requires
        all_known(rates),
        rates.len() <= 0x4_0000_0000_0000,
        added(rates, rate_weight()) <= pow2(2090),
    ensures
        ({
            let weight = added(rates, rate_weight());
            &&& weight >= 0
            &&& added_up(rates) is Some
            &&& added_up(rates)->0.finite()
            &&& abs(added_up(rates)->0.value()) <= 2 * weight
            &&& differ_by(
                added_up(rates)->0.value(),
                added(rates, rate_value()),
                4 * (rates.len() * weight),
            )
            &&& abs(added(rates, rate_value())) <= weight
        }),
    decreases rates.len(),
{
    assert(units(0) == 0);
    if rates.len() > 0 {
        let rest = rates.drop_last();
        let rate = rates.last()->0;
        assert(rates[rates.len() - 1] == rates.last());
        assert forall|i: int| 0 <= i < rest.len() implies (#[trigger] rest[i]) is Some
            && rest[i]->0.finite() by {
            assert(rest[i] == rates[i]);
        }
        let weight = added(rest, rate_weight());
        let more = added(rates, rate_weight());
        assert(more >= weight);
        lemma_added_up(rest);
        let sum = added_up(rest)->0;
        let count = rest.len();
        let total = added(rates, rate_value());
        let exact = sum.value() + rate.value();
        assert(abs(exact) <= 2 * more);
        lemma_pow2_unfold(2091);
        lemma_sum_is_finite(sum, rate, 2091);
        lemma_sum_is_close(sum, rate);
        let next = sum.sum(rate).value();
        assert(differ_by(next, exact, 4 * more));
        assert(differ_by(exact, total, 4 * (count * weight)));
        assert((count + 1) * more == count * more + more) by (nonlinear_arith);
        assert(count * weight <= count * more) by (nonlinear_arith)
            requires
                weight <= more,
                count >= 0,
        ;
        assert((count + 1) * more <= 0x4_0000_0000_0000 * more) by (nonlinear_arith)
            requires
                count + 1 <= 0x4_0000_0000_0000,
                more >= 0,
        ;
    }
}

/// A total of rates is their sum, but for rounding, and does not depend on their order
/// otherwise. Left out are more rates than any machine can list, and rates that are out of
/// range together.
pub proof fn lemma_total_is_the_sum(rates: Seq<Option<Double>>)
    requires
        all_known(rates),
        0 < rates.len() <= 0x4_0000_0000_0000,
        added(rates, rate_weight()) <= pow2(2090),
    ensures
        match total_rate(rates) {
            Some(total) => {
                &&& total.finite()
                &&& differ_by(
                    total.value(),
                    added(rates, rate_value()),
                    4 * (rates.len() * added(rates, rate_weight())),
                )
            },
            None => false,
        },
{
    lemma_added_up(rates);
}

/// The rates of disks are those of each disk of the name, or of each at all: what is read where
/// reading is asked for, and what is written where writing is.
pub proof fn lemma_rates_of_disks(
    disks: Seq<DiskView>,
    disk: DiskView,
    name: Seq<char>,
    write: bool,
)
    ensures
        disk_rates(Seq::empty(), name, write).len() == 0,
        name.len() > 0 && disk.name != name ==> disk_rates(disks.push(disk), name, write)
            == disk_rates(disks, name, write),
        name.len() == 0 || disk.name == name ==> disk_rates(disks.push(disk), name, write)
            == disk_rates(disks, name, write).push(
            if write {
                disk.write_bytes_per_sec
            } else {
                disk.read_bytes_per_sec
            },
        ),
{
    assert(disks.push(disk).drop_last() =~= disks);
}

/// The rates of interfaces are those of each interface of the name, or of each at all: what is
/// received, or what is transmitted where that is asked for.
pub proof fn lemma_rates_of_interfaces(
    networks: Seq<NetworkView>,
    network: NetworkView,
    name: Seq<char>,
    transmit: bool,
)
    ensures
        network_rates(Seq::empty(), name, transmit).len() == 0,
        name.len() > 0 && network.name != name ==> network_rates(
            networks.push(network),
            name,
            transmit,
        ) == network_rates(networks, name, transmit),
        name.len() == 0 || network.name == name ==> network_rates(
            networks.push(network),
            name,
            transmit,
        ) == network_rates(networks, name, transmit).push(
            if transmit {
                network.transmitted_bytes_per_sec
            } else {
                network.received_bytes_per_sec
            },
        ),
{
    assert(networks.push(network).drop_last() =~= networks);
}

/// Whether a sensor reads a CPU.
pub open spec fn reads_a_cpu(sensor: SensorView) -> bool {
    sensor.is_cpu && sensor.celsius.finite()
}

/// The hottest sensor of a CPU is one of them, and none is hotter.
pub proof fn lemma_hottest_cpu(sensors: Seq<SensorView>, i: int)
    ensures
        match hottest_cpu(sensors) {
            Some(celsius) => {
                &&& celsius.finite()
                &&& exists|k: int|
                    0 <= k < sensors.len() && reads_a_cpu(#[trigger] sensors[k])
                        && sensors[k].celsius == celsius
                &&& 0 <= i < sensors.len() && reads_a_cpu(sensors[i])
                    ==> sensors[i].celsius.value() <= celsius.value()
            },
            None => 0 <= i < sensors.len() ==> !reads_a_cpu(sensors[i]),
        },
    decreases sensors.len(),
{
    if sensors.len() > 0 {
        let rest = sensors.drop_last();
        let last = sensors.last();
        assert(sensors[sensors.len() - 1] == last);
        assert(forall|k: int| 0 <= k < rest.len() ==> rest[k] == #[trigger] sensors[k]);
        lemma_hottest_cpu(rest, i);
        if let Some(before) = hottest_cpu(rest) {
            let k = choose|k: int|
                0 <= k < rest.len() && reads_a_cpu(#[trigger] rest[k]) && rest[k].celsius == before;
            assert(sensors[k].celsius == before);
            if reads_a_cpu(last) {
                let hottest = before.maximum(last.celsius);
                lemma_order_is_numeric(before, last.celsius);
                lemma_order_is_numeric(last.celsius, before);
                assert(before.value() <= hottest.value());
                assert(last.celsius.value() <= hottest.value());
            }
        }
    }
}

/// The share of a CPU is that of the first with its number.
pub proof fn lemma_core_share(cores: Seq<Core>, id: usize, k: int)
    requires
        0 <= k < cores.len(),
        cores[k].id == id,
        forall|i: int| 0 <= i < k ==> (#[trigger] cores[i]).id != id,
    ensures
        core_share(cores, id) == cores[k].percent,
    decreases k,
{
    if k > 0 {
        let rest = cores.skip(1);
        assert(cores[0].id != id);
        assert forall|i: int| 0 <= i < k - 1 implies (#[trigger] rest[i]).id != id by {
            assert(cores[i + 1].id != id);
        }
        lemma_core_share(rest, id, k - 1);
    }
}

/// The temperature at a sensor is that of the first with its name.
pub proof fn lemma_celsius_at(sensors: Seq<SensorView>, id: Seq<char>, k: int)
    requires
        0 <= k < sensors.len(),
        sensors[k].id == id,
        forall|i: int| 0 <= i < k ==> (#[trigger] sensors[i]).id != id,
    ensures
        celsius_at(sensors, id) == Some(sensors[k].celsius),
    decreases k,
{
    if k > 0 {
        let rest = sensors.skip(1);
        assert(sensors[0].id != id);
        assert forall|i: int| 0 <= i < k - 1 implies (#[trigger] rest[i]).id != id by {
            assert(sensors[i + 1].id != id);
        }
        lemma_celsius_at(rest, id, k - 1);
    }
}

/// The time that a system is up is told in days, hours and minutes; what is less than a minute
/// is left out, and so are no days.
pub proof fn lemma_uptime_is_told(
    seconds: Double,
    days: nat,
    hours: nat,
    minutes: nat,
    rest: nat,
)
    requires
        seconds.finite(),
        !seconds.negative(),
        seconds.truncated() == ((days * 24 + hours) * 60 + minutes) * 60 + rest,
        hours < 24,
        minutes < 60,
        rest < 60,
    ensures
        uptime_text(seconds) == if days > 0 {
            decimal(days) + "d "@ + decimal(hours) + "h "@ + decimal(minutes) + "m"@
        } else {
            decimal(hours) + "h "@ + decimal(minutes) + "m"@
        },
{
    let whole = seconds.truncated();
    assert(seconds.maximum(Double::zero()).truncated() == whole);
    assert(whole / 86400 == days);
    assert(whole % 86400 / 3600 == hours);
    assert(whole % 3600 / 60 == minutes);
}

/// A sensor is critical exactly where it has reached the temperature that it is not to reach.
pub proof fn lemma_critical(sensor: SensorView, limit: Double)
    requires
        sensor.critical_celsius == Some(limit),
        limit.finite(),
        sensor.celsius.finite(),
    ensures
        is_critical(sensor) <==> limit.value() <= sensor.celsius.value(),
{
    lemma_order_is_numeric(limit, sensor.celsius);
}

/// Whether a text is a number, written to so many places, and what stands behind it.
#[verifier::opaque]
pub open spec fn shows_number(text: Seq<char>, value: Double, places: nat, unit: Seq<char>) -> bool {
    let digits = text.take(text.len() - unit.len());
    &&& text.len() >= unit.len()
    &&& text == digits + unit
    &&& writes_number(digits, value, places)
}

proof fn lemma_number_with_unit(value: Double, places: nat, unit: Seq<char>)
    requires
        value.finite(),
    ensures
        shows_number(value.fixed(places) + unit, value, places, unit),
{
    reveal(shows_number);
    let text = value.fixed(places) + unit;
    lemma_fixed_writes_the_number(value, places);
    assert(text.take(text.len() - unit.len()) =~= value.fixed(places));
}

/// Numbers, shares and temperatures are shown as they are, to the places that are asked for or
/// to one. What is no number is not shown as one.
pub proof fn lemma_figures_are_shown_as_they_are(value: Double, decimals: nat)
    requires
        value.finite(),
    ensures
        shows_number(number_text(value, decimals), value, decimals, Seq::empty()),
        shows_number(percent_text(Some(value)), value, 1, "%"@),
        shows_number(temperature_text(Some(value)), value, 1, " °C"@),
        percent_text(None) == "Unavailable"@,
        temperature_text(None) == "Unavailable"@,
        number_text(Double::no_number(), decimals) == "Unavailable"@,
{
    lemma_number_with_unit(value, decimals, Seq::empty());
    assert(value.fixed(decimals) + Seq::<char>::empty() =~= value.fixed(decimals));
    lemma_number_with_unit(value, 1, "%"@);
    lemma_number_with_unit(value, 1, " °C"@);
}

/// A clock in megahertz is shown in gigahertz, to two places: as a thousandth of it.
pub proof fn lemma_clock_is_shown_in_gigahertz(mhz: Double) -> (shown: Double)
    requires
        mhz.finite(),
    ensures
        shows_number(frequency_text(Some(mhz)), shown, 2, " GHz"@),
        differ_by(shown.value() * 1000, mhz.value(), (abs(shown.value()) + HIDDEN) * 1000),
        frequency_text(None) == "Clock unavailable"@,
{
    let shown = mhz.quotient(Double::integer(1000));
    lemma_parts_of_a_number(mhz, 1000);
    lemma_number_with_unit(shown, 2, " GHz"@);
    shown
}

/// Bytes are shown in the first binary unit that they do not fill, none less than zero, and a
/// rate is the bytes of a second.
pub proof fn lemma_bytes_are_shown_in_their_unit(value: Double) -> (result: (nat, Double))
    requires
        value.finite(),
    ensures
        ({
            let (unit, shown) = result;
            let one = pow2(FINEST as nat);
            &&& unit <= 5
            &&& shows_amount(
                bytes_text(value),
                if value.value() > 0 {
                    value.value()
                } else {
                    0
                },
                unit,
                shown,
            )
            &&& unit < 5 ==> abs(shown.value()) < 1024 * one
            &&& unit > 0 ==> abs(shown.value()) >= one
            &&& rate_text(Some(value)) == bytes_text(value) + "/s"@
            &&& rate_text(None) == "Unavailable"@
        }),
{
    let amount = value.maximum(Double::zero());
    assert(units(0) == 0);
    lemma_order_is_numeric(value, Double::zero());
    lemma_order_is_numeric(Double::zero(), value);
    lemma_pow0(1024);
    let (unit, shown) = lemma_amount_is_shown_in_its_unit(amount, 0, 5);
    assert(amount.value() * 1 == amount.value());
    (unit, shown)
}

/// What is said of a sensor tells the temperature that it is not to reach, to the degree, and
/// that it is reached exactly where it is.
pub proof fn lemma_threshold_is_told(sensor: SensorView, limit: Double)
    requires
        sensor.critical_celsius == Some(limit),
        limit.finite(),
        sensor.celsius.finite(),
    ensures
        limit.value() <= sensor.celsius.value() ==> threshold_text(sensor)
            == "At or above critical threshold ("@ + limit.fixed(0) + " °C)"@,
        limit.value() > sensor.celsius.value() ==> threshold_text(sensor)
            == "Below reported critical threshold ("@ + limit.fixed(0) + " °C)"@,
        writes_number(limit.fixed(0), limit, 0),
{
    lemma_critical(sensor, limit);
    lemma_fixed_writes_the_number(limit, 0);
}

} // verus!
