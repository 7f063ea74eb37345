//! The temperature sensors that hardware monitors and thermal zones expose.

use crate::accuracy::{differ_by, lemma_parts_of_a_number};
use crate::double::{lemma_order_is_numeric, units, Double, FINEST, HIDDEN};
use crate::margins::lemma_integer_is_exact;
use crate::parsing::parsed;
use crate::readings::warn;
use crate::rounding::lemma_powers;
use crate::table::{
    lemma_text_irreflexive, lemma_text_total, lemma_text_transitive, precedes, text_less,
};
use crate::text::{
    all_digits, ascii_lowercase, begins, characters, contains, copied, decimal, decimal_characters,
    ends, ends_with, holds, is_digit, lemma_views_push, lowered, optional_view, push_characters,
    push_decimal, read_trimmed, said, same, same_text, spells, starts, starts_with, string_of,
    trimmed, views,
};
use crate::writing::lemma_decimal_counts;
use vstd::arithmetic::power2::{lemma2_to64, lemma2_to64_rest, pow2};
use vstd::math::abs;
use vstd::prelude::*;
use vstd::slice::slice_subrange;

verus! {

// ---------------------------------------------------------------------------
// What a system exposes
// ---------------------------------------------------------------------------

/// A file of a hardware monitor that may be the input of a temperature channel,
/// with what its fellow files say. A text is `None` where it could not be read.
#[derive(Clone, Debug)]
pub struct Attribute {
    pub file_name: String,
    /// The path of the input without links: it is the same for every alias.
    pub source: String,
    pub input: Option<String>,
    pub enable: Option<String>,
    pub kind: Option<String>,
    pub fault: Option<String>,
    pub label: Option<String>,
    pub critical: Option<String>,
}

/// A hardware monitor.
#[derive(Clone, Debug)]
pub struct Monitor {
    pub file_name: String,
    pub name: Option<String>,
    pub device_name: Option<String>,
    /// The path of the device without links.
    pub device: String,
    /// Its attributes, those of its older `device` directory last.
    pub attributes: Vec<Attribute>,
}

/// A file of a thermal zone that may give the kind of a trip point, with the
/// temperature of that point.
#[derive(Clone, Debug)]
pub struct TripPoint {
    pub file_name: String,
    pub kind: Option<String>,
    pub temperature: Option<String>,
}

/// An entry among the thermal zones.
#[derive(Clone, Debug)]
pub struct Zone {
    pub file_name: String,
    pub kind: Option<String>,
    pub source: String,
    pub input: Option<String>,
    pub trip_points: Vec<TripPoint>,
}

/// What a CPU's temperature is measured for.
#[derive(Clone, Debug)]
pub enum CpuTemperatureSource {
    Other,
    /// An offset value that fans are controlled by.
    Control { device: String },
    /// The temperature of the die itself.
    Die { device: String },
}

/// A temperature reading.
#[derive(Clone, Debug)]
pub struct Sensor {
    pub id: String,
    pub label: String,
    pub celsius: Double,
    pub critical_celsius: Option<Double>,
    pub is_cpu: bool,
    pub cpu_temperature_source: CpuTemperatureSource,
}

// ---------------------------------------------------------------------------
// The same as plain values
// ---------------------------------------------------------------------------

#[verifier::ext_equal]
pub enum SourceView {
    Other,
    Control { device: Seq<char> },
    Die { device: Seq<char> },
}

impl View for CpuTemperatureSource {
    type V = SourceView;

    open spec fn view(&self) -> SourceView {
        match self {
            CpuTemperatureSource::Other => SourceView::Other,
            CpuTemperatureSource::Control { device } => SourceView::Control { device: device@ },
            CpuTemperatureSource::Die { device } => SourceView::Die { device: device@ },
        }
    }
}

#[verifier::ext_equal]
pub struct SensorView {
    pub id: Seq<char>,
    pub label: Seq<char>,
    pub celsius: Double,
    pub critical_celsius: Option<Double>,
    pub is_cpu: bool,
    pub source: SourceView,
}

impl View for Sensor {
    type V = SensorView;

    open spec fn view(&self) -> SensorView {
        SensorView {
            id: self.id@,
            label: self.label@,
            celsius: self.celsius,
            critical_celsius: self.critical_celsius,
            is_cpu: self.is_cpu,
            source: self.cpu_temperature_source@,
        }
    }
}

#[verifier::ext_equal]
pub struct AttributeView {
    pub file_name: Seq<char>,
    pub source: Seq<char>,
    pub input: Option<Seq<char>>,
    pub enable: Option<Seq<char>>,
    pub kind: Option<Seq<char>>,
    pub fault: Option<Seq<char>>,
    pub label: Option<Seq<char>>,
    pub critical: Option<Seq<char>>,
}

impl View for Attribute {
    type V = AttributeView;

    open spec fn view(&self) -> AttributeView {
        AttributeView {
            file_name: self.file_name@,
            source: self.source@,
            input: optional_view(self.input),
            enable: optional_view(self.enable),
            kind: optional_view(self.kind),
            fault: optional_view(self.fault),
            label: optional_view(self.label),
            critical: optional_view(self.critical),
        }
    }
}

#[verifier::ext_equal]
pub struct MonitorView {
    pub file_name: Seq<char>,
    pub name: Option<Seq<char>>,
    pub device_name: Option<Seq<char>>,
    pub device: Seq<char>,
    pub attributes: Seq<AttributeView>,
}

impl View for Monitor {
    type V = MonitorView;

    open spec fn view(&self) -> MonitorView {
        MonitorView {
            file_name: self.file_name@,
            name: optional_view(self.name),
            device_name: optional_view(self.device_name),
            device: self.device@,
            attributes: views(self.attributes@),
        }
    }
}

#[verifier::ext_equal]
pub struct TripPointView {
    pub file_name: Seq<char>,
    pub kind: Option<Seq<char>>,
    pub temperature: Option<Seq<char>>,
}

impl View for TripPoint {
    type V = TripPointView;

    open spec fn view(&self) -> TripPointView {
        TripPointView {
            file_name: self.file_name@,
            kind: optional_view(self.kind),
            temperature: optional_view(self.temperature),
        }
    }
}

#[verifier::ext_equal]
pub struct ZoneView {
    pub file_name: Seq<char>,
    pub kind: Option<Seq<char>>,
    pub source: Seq<char>,
    pub input: Option<Seq<char>>,
    pub trip_points: Seq<TripPointView>,
}

impl View for Zone {
    type V = ZoneView;

    open spec fn view(&self) -> ZoneView {
        ZoneView {
            file_name: self.file_name@,
            kind: optional_view(self.kind),
            source: self.source@,
            input: optional_view(self.input),
            trip_points: views(self.trip_points@),
        }
    }
}

// ---------------------------------------------------------------------------
// Names
// ---------------------------------------------------------------------------

/// Whether a text has another one in it.
fn mentions(s: &[char], part: &str) -> (result: bool)
    ensures
        result == holds(s@, part@),
{
    let wanted: Vec<char> = characters(part);
    contains(s, wanted.as_slice())
}

/// Whether a driver or a channel is known by a part of its name to measure CPUs.
pub open spec fn mentions_cpu(name: Seq<char>) -> bool {
    ||| holds(name, "coretemp"@)
    ||| holds(name, "k10temp"@)
    ||| holds(name, "k8temp"@)
    ||| holds(name, "zenpower"@)
    ||| holds(name, "cpu"@)
    ||| holds(name, "x86_pkg"@)
    ||| holds(name, "soc_thermal"@)
    ||| holds(name, "tctl"@)
    ||| holds(name, "tdie"@)
}

/// Whether a source and a label are those of a CPU's temperature. Memory
/// modules, voltage regulators, and the hotter of chipset and CPU are not.
pub open spec fn names_cpu(source: Seq<char>, label: Seq<char>) -> bool {
    let source = ascii_lowercase(source);
    let label = ascii_lowercase(label);
    &&& source != "peci_dimmtemp"@ && !begins(source, "peci_dimmtemp."@)
    &&& !holds(source, "vrm"@) && !holds(label, "vrm"@)
    &&& source != "pch_chip_cpu_max_temp"@ && label != "pch_chip_cpu_max_temp"@
    &&& mentions_cpu(source) || mentions_cpu(label)
}

fn is_cpu_part(name: &[char]) -> (result: bool)
    ensures
        result == mentions_cpu(name@),
{
    mentions(name, "coretemp") || mentions(name, "k10temp") || mentions(name, "k8temp")
        || mentions(name, "zenpower") || mentions(name, "cpu") || mentions(name, "x86_pkg")
        || mentions(name, "soc_thermal") || mentions(name, "tctl") || mentions(name, "tdie")
}

fn cpu_sensor_characters(source: &[char], label: &[char]) -> (result: bool)
    ensures
        result == names_cpu(source@, label@),
{
    let source: Vec<char> = lowered(source);
    if spells(source.as_slice(), "peci_dimmtemp") || starts(source.as_slice(), "peci_dimmtemp.") {
        return false;
    }
    let label: Vec<char> = lowered(label);
    if mentions(source.as_slice(), "vrm") || mentions(label.as_slice(), "vrm") {
        return false;
    }
    if spells(source.as_slice(), "pch_chip_cpu_max_temp") || spells(
        label.as_slice(),
        "pch_chip_cpu_max_temp",
    ) {
        return false;
    }
    is_cpu_part(source.as_slice()) || is_cpu_part(label.as_slice())
}

/// Whether a source and a label are those of a CPU's temperature.
pub fn cpu_sensor_name(source: &str, label: &str) -> (result: bool)
    ensures
        result == names_cpu(source@, label@),
{
    let left: Vec<char> = characters(source);
    let right: Vec<char> = characters(label);
    cpu_sensor_characters(left.as_slice(), right.as_slice())
}

/// The channel that the name of an input file gives: `temp` and a number.
pub open spec fn channel_of(file_name: Seq<char>) -> Option<Seq<char>> {
    let channel = file_name.take(file_name.len() - "_input"@.len());
    if ends(file_name, "_input"@) && begins(channel, "temp"@) && all_digits(
        channel.skip("temp"@.len() as int),
    ) {
        Some(channel)
    } else {
        None
    }
}

fn digits_only(s: &[char]) -> (result: bool)
    ensures
        result == all_digits(s@),
{
    let mut i: usize = 0;
    while i < s.len()
        invariant
            i <= s@.len(),
            forall|k: int| 0 <= k < i ==> is_digit(#[trigger] s@[k]),
        decreases s@.len() - i,
    {
        match s[i] {
            '0'..='9' => {},
            _ => {
                assert(!is_digit(s@[i as int]));
                return false;
            },
        }
        i += 1;
    }
    s.len() > 0
}

fn channel_characters(file_name: &[char]) -> (result: Option<Vec<char>>)
    ensures
        optional_view(result) == channel_of(file_name@),
{
    let suffix: Vec<char> = characters("_input");
    let prefix: Vec<char> = characters("temp");
    if !ends_with(file_name, suffix.as_slice()) {
        return None;
    }
    let channel: &[char] = slice_subrange(file_name, 0, file_name.len() - suffix.len());
    assert(channel@ =~= file_name@.take(file_name@.len() - "_input"@.len()));
    if !starts_with(channel, prefix.as_slice()) {
        return None;
    }
    let id: &[char] = slice_subrange(channel, prefix.len(), channel.len());
    assert(id@ =~= channel@.skip("temp"@.len() as int));
    if digits_only(id) {
        Some(copied(channel))
    } else {
        None
    }
}

/// The channel that the name of an input file gives, such as `temp1`.
pub fn temperature_channel(file_name: &str) -> (result: Option<String>)
    ensures
        optional_view(result) == channel_of(file_name@),
{
    let name: Vec<char> = characters(file_name);
    match channel_characters(name.as_slice()) {
        Some(channel) => Some(string_of(channel.as_slice())),
        None => None,
    }
}

/// The trip point that the name of a file gives: what stands before `_type`.
pub open spec fn trip_point_of(file_name: Seq<char>) -> Option<Seq<char>> {
    let prefix = file_name.take(file_name.len() - "_type"@.len());
    if ends(file_name, "_type"@) && begins(prefix, "trip_point_"@) {
        Some(prefix)
    } else {
        None
    }
}

/// The trip point that the name of a file gives, such as `trip_point_0`.
pub fn trip_point(file_name: &str) -> (result: Option<String>)
    ensures
        optional_view(result) == trip_point_of(file_name@),
{
    let name: Vec<char> = characters(file_name);
    let suffix: Vec<char> = characters("_type");
    let prefix: Vec<char> = characters("trip_point_");
    if !ends_with(name.as_slice(), suffix.as_slice()) {
        return None;
    }
    let point: &[char] = slice_subrange(name.as_slice(), 0, name.len() - suffix.len());
    assert(point@ =~= file_name@.take(file_name@.len() - "_type"@.len()));
    if starts_with(point, prefix.as_slice()) {
        Some(string_of(point))
    } else {
        None
    }
}

// ---------------------------------------------------------------------------
// Temperatures
// ---------------------------------------------------------------------------

/// -100.0, the coldest credible reading.
pub const COLDEST: u64 = 0xc059_0000_0000_0000;

/// 250.0, the hottest credible reading.
pub const HOTTEST: u64 = 0x406f_4000_0000_0000;

/// Whether a temperature is one that can be believed.
pub open spec fn is_credible(celsius: Double) -> bool {
    (Double { bits: COLDEST }).at_most(celsius) && celsius.at_most(Double { bits: HOTTEST })
}

/// The temperature that a text gives in thousandths of a degree. What is outside
/// the credible range is none.
pub open spec fn temperature(text: Option<Seq<char>>) -> Option<Double> {
    match said(text) {
        Some(inner) => match parsed(inner) {
            Some(value) => {
                let celsius = value.quotient(Double::integer(1000));
                if is_credible(celsius) {
                    Some(celsius)
                } else {
                    None
                }
            },
            None => None,
        },
        None => None,
    }
}

/// The temperature above zero that a text gives.
pub open spec fn limit(text: Option<Seq<char>>) -> Option<Double> {
    match temperature(text) {
        Some(celsius) => if Double::zero().less(celsius) {
            Some(celsius)
        } else {
            None
        },
        None => None,
    }
}

/// The temperature that a text gives in thousandths of a degree.
pub fn read_temperature(text: &Option<String>) -> (result: Option<Double>)
    ensures
        result == temperature(optional_view(*text)),
{
    match read_trimmed(text) {
        Some(inner) => match Double::parse(inner.as_slice()) {
            Some(value) => {
                let celsius: Double = value.div(Double::from_integer(1000));
                if Double::from_bits(COLDEST).is_at_most(celsius) && celsius.is_at_most(
                    Double::from_bits(HOTTEST),
                ) {
                    Some(celsius)
                } else {
                    None
                }
            },
            None => None,
        },
        None => None,
    }
}

fn read_limit(text: &Option<String>) -> (result: Option<Double>)
    ensures
        result == limit(optional_view(*text)),
{
    match read_temperature(text) {
        Some(celsius) => if Double::from_bits(0).is_less(celsius) {
            Some(celsius)
        } else {
            None
        },
        None => None,
    }
}

fn says(text: &Option<String>, expected: &str) -> (result: bool)
    ensures
        result == (said(optional_view(*text)) == Some(expected@)),
{
    match read_trimmed(text) {
        Some(inner) => spells(inner.as_slice(), expected),
        None => false,
    }
}

// ---------------------------------------------------------------------------
// Channels of hardware monitors
// ---------------------------------------------------------------------------

/// Chips some of whose channels need a conversion that differs by board.
#[derive(Clone, Copy, Debug, PartialEq, Eq, Structural)]
pub enum Chip {
    Vt1211,
    Vt8231,
    Wm831x,
}

impl Chip {
    pub open spec fn shown(self) -> Seq<char> {
        match self {
            Chip::Vt1211 => "VT1211"@,
            Chip::Vt8231 => "VT8231"@,
            Chip::Wm831x => "WM831x"@,
        }
    }

    pub fn name(self) -> (result: &'static str)
        ensures
            result@ == self.shown(),
    {
        match self {
            Chip::Vt1211 => "VT1211",
            Chip::Vt8231 => "VT8231",
            Chip::Wm831x => "WM831x",
        }
    }
}

/// What a channel is taken for.
#[derive(Clone, Copy, Debug, PartialEq, Eq, Structural)]
pub enum Verdict {
    /// A measurement.
    Measurement,
    /// No measurement: a target of control, or disabled.
    Excluded,
    /// Something that needs a conversion.
    Unconverted(Chip),
    /// Faulted, whatever its input says.
    Faulted,
}

/// The driver of a hardware monitor.
pub open spec fn driver_of(monitor: MonitorView) -> Seq<char> {
    match said(monitor.name) {
        Some(name) => name,
        None => match said(monitor.device_name) {
            Some(name) => name,
            None => monitor.file_name,
        },
    }
}

/// Whether a driver reads CPUs over PECI. Channels 3 to 5 of such a driver are
/// targets of control.
pub open spec fn is_peci_cpu(driver: Seq<char>) -> bool {
    driver == "peci_cputemp"@ || begins(driver, "peci_cputemp."@)
}

/// Whether a driver is one of those in whose channels a type of 0 means unused.
pub open spec fn is_it87(driver: Seq<char>) -> bool {
    ||| driver == "it87"@
    ||| driver == "it8712"@
    ||| driver == "it8716"@
    ||| driver == "it8718"@
    ||| driver == "it8720"@
    ||| driver == "it8721"@
    ||| driver == "it8728"@
    ||| driver == "it8732"@
    ||| driver == "it8771"@
    ||| driver == "it8772"@
    ||| driver == "it8781"@
    ||| driver == "it8782"@
    ||| driver == "it8783"@
    ||| driver == "it8786"@
    ||| driver == "it8790"@
    ||| driver == "it8792"@
    ||| driver == "it8603"@
    ||| driver == "it8620"@
    ||| driver == "it8622"@
    ||| driver == "it8628"@
    ||| driver == "it8689"@
    ||| driver == "it87952"@
}

/// The chip by which a channel needs a conversion, if it does.
pub open spec fn conversion(driver: Seq<char>, channel: Seq<char>) -> Option<Chip> {
    if driver == "vt1211"@ && channel != "temp2"@ {
        Some(Chip::Vt1211)
    } else if driver == "wm831x"@ && channel == "temp2"@ {
        Some(Chip::Wm831x)
    } else if driver == "vt8231"@ && (channel == "temp2"@ || channel == "temp3"@ || channel
        == "temp4"@ || channel == "temp5"@ || channel == "temp6"@) {
        Some(Chip::Vt8231)
    } else {
        None
    }
}

/// What a channel of a driver is taken for.
pub open spec fn verdict(
    driver: Seq<char>,
    channel: Seq<char>,
    attribute: AttributeView,
) -> Verdict {
    if is_peci_cpu(driver) && (channel == "temp3"@ || channel == "temp4"@ || channel
        == "temp5"@) {
        Verdict::Excluded
    } else if said(attribute.enable) == Some("0"@) {
        Verdict::Excluded
    } else if is_it87(driver) && said(attribute.kind) == Some("0"@) {
        Verdict::Excluded
    } else if conversion(driver, channel) is Some {
        Verdict::Unconverted(conversion(driver, channel)->0)
    } else if said(attribute.fault) == Some("1"@) {
        Verdict::Faulted
    } else {
        Verdict::Measurement
    }
}

/// The sensor that a channel would be.
pub open spec fn channel_sensor(
    driver: Seq<char>,
    device: Seq<char>,
    channel: Seq<char>,
    attribute: AttributeView,
) -> Option<SensorView> {
    let label = match said(attribute.label) {
        Some(label) => label,
        None => channel,
    };
    let tells = driver == "k10temp"@ || driver == "zenpower"@;
    match temperature(attribute.input) {
        Some(celsius) => Some(
            SensorView {
                id: attribute.source,
                label: driver + " · "@ + label,
                celsius,
                critical_celsius: limit(attribute.critical),
                is_cpu: names_cpu(driver, label),
                source: if tells && label == "Tctl"@ {
                    SourceView::Control { device }
                } else if tells && label == "Tdie"@ {
                    SourceView::Die { device }
                } else {
                    SourceView::Other
                },
            },
        ),
        None => None,
    }
}

/// A channel that was found.
#[verifier::ext_equal]
pub struct FoundView {
    pub source: Seq<char>,
    pub verdict: Verdict,
    /// The sensor that it would be, where its input gives a temperature.
    pub sensor: Option<SensorView>,
}

/// The channels among the first attributes of a monitor.
pub open spec fn found_in(monitor: MonitorView, n: int) -> Seq<FoundView>
    decreases n,
{
    if n <= 0 {
        Seq::empty()
    } else {
        let attribute = monitor.attributes[n - 1];
        let driver = driver_of(monitor);
        match channel_of(attribute.file_name) {
            Some(channel) => found_in(monitor, n - 1).push(
                FoundView {
                    source: attribute.source,
                    verdict: verdict(driver, channel, attribute),
                    sensor: channel_sensor(driver, monitor.device, channel, attribute),
                },
            ),
            None => found_in(monitor, n - 1),
        }
    }
}

/// The channels of monitors, in the order in which they are exposed.
pub open spec fn found(monitors: Seq<MonitorView>) -> Seq<FoundView>
    decreases monitors.len(),
{
    if monitors.len() == 0 {
        Seq::empty()
    } else {
        found(monitors.drop_last()) + found_in(
            monitors.last(),
            monitors.last().attributes.len() as int,
        )
    }
}

struct Found {
    source: Vec<char>,
    verdict: Verdict,
    sensor: Option<Sensor>,
}

impl View for Found {
    type V = FoundView;

    closed spec fn view(&self) -> FoundView {
        FoundView {
            source: self.source@,
            verdict: self.verdict,
            sensor: optional_view(self.sensor),
        }
    }
}

fn peci_cpu(driver: &[char]) -> (result: bool)
    ensures
        result == is_peci_cpu(driver@),
{
    spells(driver, "peci_cputemp") || starts(driver, "peci_cputemp.")
}

fn it87(driver: &[char]) -> (result: bool)
    ensures
        result == is_it87(driver@),
{
    spells(driver, "it87") || spells(driver, "it8712") || spells(driver, "it8716") || spells(
        driver,
        "it8718",
    ) || spells(driver, "it8720") || spells(driver, "it8721") || spells(driver, "it8728") || spells(
        driver,
        "it8732",
    ) || spells(driver, "it8771") || spells(driver, "it8772") || spells(driver, "it8781") || spells(
        driver,
        "it8782",
    ) || spells(driver, "it8783") || spells(driver, "it8786") || spells(driver, "it8790") || spells(
        driver,
        "it8792",
    ) || spells(driver, "it8603") || spells(driver, "it8620") || spells(driver, "it8622") || spells(
        driver,
        "it8628",
    ) || spells(driver, "it8689") || spells(driver, "it87952")
}

fn needs_conversion(driver: &[char], channel: &[char]) -> (result: Option<Chip>)
    ensures
        result == conversion(driver@, channel@),
{
    if spells(driver, "vt1211") && !spells(channel, "temp2") {
        Some(Chip::Vt1211)
    } else if spells(driver, "wm831x") && spells(channel, "temp2") {
        Some(Chip::Wm831x)
    } else if spells(driver, "vt8231") && (spells(channel, "temp2") || spells(channel, "temp3")
        || spells(channel, "temp4") || spells(channel, "temp5") || spells(channel, "temp6")) {
        Some(Chip::Vt8231)
    } else {
        None
    }
}

fn judge(driver: &[char], channel: &[char], attribute: &Attribute) -> (result: Verdict)
    ensures
        result == verdict(driver@, channel@, attribute@),
{
    if peci_cpu(driver) && (spells(channel, "temp3") || spells(channel, "temp4") || spells(
        channel,
        "temp5",
    )) {
        return Verdict::Excluded;
    }
    if says(&attribute.enable, "0") || (it87(driver) && says(&attribute.kind, "0")) {
        return Verdict::Excluded;
    }
    match needs_conversion(driver, channel) {
        Some(chip) => {
            return Verdict::Unconverted(chip);
        },
        None => {},
    }
    if says(&attribute.fault, "1") {
        Verdict::Faulted
    } else {
        Verdict::Measurement
    }
}

fn read_channel(driver: &[char], device: &str, channel: &[char], attribute: &Attribute) -> (result:
    Option<Sensor>)
    ensures
        optional_view(result) == channel_sensor(driver@, device@, channel@, attribute@),
{
    let celsius: Double = match read_temperature(&attribute.input) {
        Some(celsius) => celsius,
        None => {
            return None;
        },
    };
    let label: Vec<char> = match read_trimmed(&attribute.label) {
        Some(label) => label,
        None => copied(channel),
    };
    let tells: bool = spells(driver, "k10temp") || spells(driver, "zenpower");
    let cpu_temperature_source: CpuTemperatureSource = if tells && spells(
        label.as_slice(),
        "Tctl",
    ) {
        CpuTemperatureSource::Control { device: device.to_owned() }
    } else if tells && spells(label.as_slice(), "Tdie") {
        CpuTemperatureSource::Die { device: device.to_owned() }
    } else {
        CpuTemperatureSource::Other
    };
    let mut shown: String = string_of(driver);
    shown.append(" · ");
    push_characters(&mut shown, label.as_slice());
    let sensor: Sensor = Sensor {
        id: attribute.source.clone(),
        label: shown,
        celsius,
        critical_celsius: read_limit(&attribute.critical),
        is_cpu: cpu_sensor_characters(driver, label.as_slice()),
        cpu_temperature_source,
    };
    Some(sensor)
}

fn find_channels(monitor: &Monitor, all: &mut Vec<Found>)
    ensures
        views(final(all)@) == views(old(all)@) + found_in(
            monitor@,
            monitor@.attributes.len() as int,
        ),
{
    let driver: Vec<char> = match read_trimmed(&monitor.name) {
        Some(name) => name,
        None => match read_trimmed(&monitor.device_name) {
            Some(name) => name,
            None => characters(monitor.file_name.as_str()),
        },
    };
    let ghost before = views(all@);
    let ghost attributes = monitor@.attributes;
    let mut i: usize = 0;
    assert(before + found_in(monitor@, 0) =~= before);
    while i < monitor.attributes.len()
        invariant
            i <= monitor.attributes@.len(),
            attributes == monitor@.attributes,
            attributes == views(monitor.attributes@),
            driver@ == driver_of(monitor@),
            views(all@) == before + found_in(monitor@, i as int),
        decreases monitor.attributes@.len() - i,
    {
        let attribute: &Attribute = &monitor.attributes[i];
        assert(attributes[i as int] == attribute@);
        let name: Vec<char> = characters(attribute.file_name.as_str());
        match channel_characters(name.as_slice()) {
            Some(channel) => {
                let one: Found = Found {
                    source: characters(attribute.source.as_str()),
                    verdict: judge(driver.as_slice(), channel.as_slice(), attribute),
                    sensor: read_channel(
                        driver.as_slice(),
                        monitor.device.as_str(),
                        channel.as_slice(),
                        attribute,
                    ),
                };
                proof {
                    lemma_views_push(all@, one);
                }
                all.push(one);
            },
            None => {},
        }
        i += 1;
        assert(views(all@) =~= before + found_in(monitor@, i as int));
    }
}

fn find_all_channels(monitors: &Vec<Monitor>) -> (result: Vec<Found>)
    ensures
        views(result@) == found(views(monitors@)),
{
    let ghost all = views(monitors@);
    let mut result: Vec<Found> = Vec::new();
    let mut i: usize = 0;
    assert(views(result@) =~= found(all.take(0)));
    while i < monitors.len()
        invariant
            i <= monitors@.len(),
            all == views(monitors@),
            views(result@) == found(all.take(i as int)),
        decreases monitors@.len() - i,
    {
        assert(all[i as int] == monitors@[i as int]@);
        assert(all.take(i + 1).drop_last() =~= all.take(i as int));
        find_channels(&monitors[i], &mut result);
        i += 1;
    }
    assert(all.take(i as int) =~= all);
    result
}

// ---------------------------------------------------------------------------
// Aliases
// ---------------------------------------------------------------------------

pub open spec fn rejecting(one: FoundView) -> bool {
    one.verdict != Verdict::Measurement
}

/// Whether a source is known, by one of the channels that lead to it, not to be
/// a measurement. That holds of it whatever other channels say.
pub open spec fn rejected(all: Seq<FoundView>, source: Seq<char>) -> bool {
    exists|k: int| 0 <= k < all.len() && (#[trigger] all[k]).source == source && rejecting(all[k])
}

/// Whether a channel is the first of those that lead to its source.
pub open spec fn first_alias(all: Seq<FoundView>, k: int) -> bool {
    forall|j: int| 0 <= j < k ==> (#[trigger] all[j]).source != all[k].source
}

/// Whether a channel is the first that rejects its source.
pub open spec fn first_rejection(all: Seq<FoundView>, k: int) -> bool {
    &&& rejecting(all[k])
    &&& forall|j: int|
        0 <= j < k && (#[trigger] all[j]).source == all[k].source ==> !rejecting(all[j])
}

/// Whether a channel becomes a sensor: the first of those that lead to its
/// source, where none of them rejects it and its temperature can be read.
pub open spec fn kept(all: Seq<FoundView>, k: int) -> bool {
    !rejected(all, all[k].source) && first_alias(all, k) && all[k].sensor is Some
}

/// The sensors that the first channels become.
pub open spec fn kept_sensors(all: Seq<FoundView>, n: int) -> Seq<SensorView>
    decreases n,
{
    if n <= 0 {
        Seq::empty()
    } else if kept(all, n - 1) {
        kept_sensors(all, n - 1).push(all[n - 1].sensor->0)
    } else {
        kept_sensors(all, n - 1)
    }
}

/// Whether a channel is one whose reading is missing: the first that reports a
/// fault of its source, or the first that leads to its source and cannot be read.
pub open spec fn unreadable(all: Seq<FoundView>, k: int) -> bool {
    ||| first_rejection(all, k) && all[k].verdict == Verdict::Faulted
    ||| !rejecting(all[k]) && first_alias(all, k) && all[k].sensor is None
}

/// How many of the first channels have no reading.
pub open spec fn unreadable_count(all: Seq<FoundView>, n: int) -> nat
    decreases n,
{
    if n <= 0 {
        0
    } else {
        unreadable_count(all, n - 1) + if unreadable(all, n - 1) {
            1nat
        } else {
            0nat
        }
    }
}

/// How many of the first channels need the conversion of a chip.
pub open spec fn conversion_count(all: Seq<FoundView>, n: int, chip: Chip) -> nat
    decreases n,
{
    if n <= 0 {
        0
    } else {
        conversion_count(all, n - 1, chip) + if first_rejection(all, n - 1) && all[n - 1].verdict
            == Verdict::Unconverted(chip) {
            1nat
        } else {
            0nat
        }
    }
}

/// How the aliases of a channel bear on it.
struct Aliases {
    /// No earlier channel leads to its source.
    first: bool,
    /// No earlier channel rejects its source.
    unchallenged: bool,
    /// No channel at all rejects its source.
    clear: bool,
}

fn aliases(all: &Vec<Found>, k: usize) -> (result: Aliases)
    requires
        k < all@.len(),
    ensures
        result.first == first_alias(views(all@), k as int),
        result.unchallenged && rejecting(views(all@)[k as int]) <==> first_rejection(
            views(all@),
            k as int,
        ),
        result.clear == !rejected(views(all@), views(all@)[k as int].source),
{
    let ghost shown = views(all@);
    let ghost source = shown[k as int].source;
    let mut first: bool = true;
    let mut unchallenged: bool = true;
    let mut clear: bool = true;
    let mut j: usize = 0;
    assert(shown[k as int] == all@[k as int]@);
    while j < all.len()
        invariant
            j <= all@.len(),
            k < all@.len(),
            shown == views(all@),
            source == all@[k as int].source@,
            first == (forall|i: int| 0 <= i < j && i < k ==> (#[trigger] shown[i]).source != source),
            unchallenged == (forall|i: int|
                0 <= i < j && i < k && (#[trigger] shown[i]).source == source ==> !rejecting(
                    shown[i],
                )),
            clear == (forall|i: int|
                0 <= i < j && (#[trigger] shown[i]).source == source ==> !rejecting(shown[i])),
        decreases all@.len() - j,
    {
        assert(shown[j as int] == all@[j as int]@);
        if same(all[j].source.as_slice(), all[k].source.as_slice()) {
            let rejects: bool = all[j].verdict != Verdict::Measurement;
            if j < k {
                first = false;
                if rejects {
                    unchallenged = false;
                }
            }
            if rejects {
                clear = false;
            }
        }
        j += 1;
    }
    Aliases { first, unchallenged, clear }
}

// ---------------------------------------------------------------------------
// Thermal zones
// ---------------------------------------------------------------------------

/// Whether an entry is a thermal zone.
pub open spec fn is_zone(zone: ZoneView) -> bool {
    begins(zone.file_name, "thermal_zone"@)
}

/// The critical temperature that a trip point gives.
pub open spec fn critical_point(point: TripPointView) -> Option<Double> {
    if trip_point_of(point.file_name) is Some && said(point.kind) == Some("critical"@) {
        limit(point.temperature)
    } else {
        None
    }
}

/// The lowest critical temperature of the trip points.
pub open spec fn lowest_critical(points: Seq<TripPointView>) -> Option<Double>
    decreases points.len(),
{
    if points.len() == 0 {
        None
    } else {
        match (lowest_critical(points.drop_last()), critical_point(points.last())) {
            (Some(lowest), Some(next)) => if next.total_rank() < lowest.total_rank() {
                Some(next)
            } else {
                Some(lowest)
            },
            (Some(lowest), None) => Some(lowest),
            (None, next) => next,
        }
    }
}

/// The sensor that a thermal zone would be.
pub open spec fn zone_sensor(zone: ZoneView) -> Option<SensorView> {
    let label = match said(zone.kind) {
        Some(kind) => kind,
        None => zone.file_name,
    };
    match temperature(zone.input) {
        Some(celsius) => Some(
            SensorView {
                id: zone.source,
                label,
                celsius,
                critical_celsius: lowest_critical(zone.trip_points),
                is_cpu: names_cpu(label, Seq::empty()),
                source: SourceView::Other,
            },
        ),
        None => None,
    }
}

pub open spec fn has_id(sensors: Seq<SensorView>, id: Seq<char>) -> bool {
    exists|i: int| 0 <= i < sensors.len() && (#[trigger] sensors[i]).id == id
}

/// Whether a zone's reading is wanted: its source is neither rejected nor that
/// of a sensor that is there already.
pub open spec fn wanted(all: Seq<FoundView>, sensors: Seq<SensorView>, zone: ZoneView) -> bool {
    is_zone(zone) && !rejected(all, zone.source) && !has_id(sensors, zone.source)
}

/// The sensors of the channels with those of the zones behind them.
pub open spec fn with_zones(all: Seq<FoundView>, zones: Seq<ZoneView>) -> Seq<SensorView>
    decreases zones.len(),
{
    if zones.len() == 0 {
        kept_sensors(all, all.len() as int)
    } else {
        let before = with_zones(all, zones.drop_last());
        if wanted(all, before, zones.last()) && zone_sensor(zones.last()) is Some {
            before.push(zone_sensor(zones.last())->0)
        } else {
            before
        }
    }
}

/// How many zones are wanted but have no reading.
pub open spec fn unreadable_zones(all: Seq<FoundView>, zones: Seq<ZoneView>) -> nat
    decreases zones.len(),
{
    if zones.len() == 0 {
        0
    } else {
        let before = with_zones(all, zones.drop_last());
        unreadable_zones(all, zones.drop_last()) + if wanted(all, before, zones.last())
            && zone_sensor(zones.last()) is None {
            1nat
        } else {
            0nat
        }
    }
}

fn read_critical_point(point: &TripPoint) -> (result: Option<Double>)
    ensures
        result == critical_point(point@),
{
    if trip_point(point.file_name.as_str()).is_some() && says(&point.kind, "critical") {
        read_limit(&point.temperature)
    } else {
        None
    }
}

fn read_zone(zone: &Zone) -> (result: Option<Sensor>)
    ensures
        optional_view(result) == zone_sensor(zone@),
{
    let celsius: Double = match read_temperature(&zone.input) {
        Some(celsius) => celsius,
        None => {
            return None;
        },
    };
    let label: Vec<char> = match read_trimmed(&zone.kind) {
        Some(kind) => kind,
        None => characters(zone.file_name.as_str()),
    };
    let ghost points = zone@.trip_points;
    let mut lowest: Option<Double> = None;
    let mut i: usize = 0;
    while i < zone.trip_points.len()
        invariant
            i <= zone.trip_points@.len(),
            points == views(zone.trip_points@),
            lowest == lowest_critical(points.take(i as int)),
        decreases zone.trip_points@.len() - i,
    {
        assert(points[i as int] == zone.trip_points@[i as int]@);
        assert(points.take(i + 1).drop_last() =~= points.take(i as int));
        let next: Option<Double> = read_critical_point(&zone.trip_points[i]);
        lowest = match (lowest, next) {
            (Some(low), Some(other)) => if other.stands_before(low) {
                Some(other)
            } else {
                Some(low)
            },
            (Some(low), None) => Some(low),
            (None, other) => other,
        };
        i += 1;
    }
    assert(points.take(i as int) =~= points);
    let nothing: Vec<char> = Vec::new();
    assert(nothing@ =~= Seq::<char>::empty());
    Some(
        Sensor {
            id: zone.source.clone(),
            label: string_of(label.as_slice()),
            celsius,
            critical_celsius: lowest,
            is_cpu: cpu_sensor_characters(label.as_slice(), nothing.as_slice()),
            cpu_temperature_source: CpuTemperatureSource::Other,
        },
    )
}

fn is_rejected(all: &Vec<Found>, source: &[char]) -> (result: bool)
    ensures
        result == rejected(views(all@), source@),
{
    let ghost shown = views(all@);
    let mut j: usize = 0;
    while j < all.len()
        invariant
            j <= all@.len(),
            shown == views(all@),
            forall|i: int|
                0 <= i < j && (#[trigger] shown[i]).source == source@ ==> !rejecting(shown[i]),
        decreases all@.len() - j,
    {
        assert(shown[j as int] == all@[j as int]@);
        if all[j].verdict != Verdict::Measurement && same(all[j].source.as_slice(), source) {
            assert(rejecting(shown[j as int]));
            return true;
        }
        j += 1;
    }
    false
}

fn knows_id(sensors: &Vec<Sensor>, id: &[char]) -> (result: bool)
    ensures
        result == has_id(views(sensors@), id@),
{
    let ghost shown = views(sensors@);
    let mut i: usize = 0;
    while i < sensors.len()
        invariant
            i <= sensors@.len(),
            shown == views(sensors@),
            forall|k: int| 0 <= k < i ==> (#[trigger] shown[k]).id != id@,
        decreases sensors@.len() - i,
    {
        assert(shown[i as int] == sensors@[i as int]@);
        if spells(id, sensors[i].id.as_str()) {
            return true;
        }
        i += 1;
    }
    false
}

// ---------------------------------------------------------------------------
// Order
// ---------------------------------------------------------------------------

/// Whether a sensor stands before another: CPUs first, then by label, then by id.
pub open spec fn sensor_before(a: SensorView, b: SensorView) -> bool {
    if a.is_cpu != b.is_cpu {
        a.is_cpu
    } else if a.label != b.label {
        text_less(a.label, b.label)
    } else {
        text_less(a.id, b.id)
    }
}

/// Whether no sensor stands behind one that it belongs before.
pub open spec fn sensors_in_order(sensors: Seq<SensorView>) -> bool {
    forall|i: int, j: int|
        0 <= i < j < sensors.len() ==> !sensor_before(#[trigger] sensors[j], #[trigger] sensors[i])
}

proof fn lemma_sensor_before_total(a: SensorView, b: SensorView)
    ensures
        !(sensor_before(a, b) && sensor_before(b, a)),
        sensor_before(a, b) || sensor_before(b, a) || (a.is_cpu == b.is_cpu && a.label == b.label
            && a.id == b.id),
{
    lemma_text_total(a.label, b.label);
    lemma_text_total(a.id, b.id);
}

proof fn lemma_sensor_before_transitive(a: SensorView, b: SensorView, c: SensorView)
    requires
        !sensor_before(b, a),
        !sensor_before(c, b),
    ensures
        !sensor_before(c, a),
{
    lemma_sensor_before_total(a, b);
    lemma_sensor_before_total(b, c);
    lemma_sensor_before_total(a, c);
    lemma_text_total(a.label, b.label);
    lemma_text_total(b.label, c.label);
    lemma_text_total(a.label, c.label);
    lemma_text_total(a.id, b.id);
    lemma_text_total(b.id, c.id);
    lemma_text_total(a.id, c.id);
    if text_less(a.label, b.label) && text_less(b.label, c.label) {
        lemma_text_transitive(a.label, b.label, c.label);
    }
    if text_less(a.id, b.id) && text_less(b.id, c.id) {
        lemma_text_transitive(a.id, b.id, c.id);
    }
}

fn stands_before(a: &Sensor, b: &Sensor) -> (result: bool)
    ensures
        result == sensor_before(a@, b@),
{
    if a.is_cpu != b.is_cpu {
        a.is_cpu
    } else if !same_text(a.label.as_str(), b.label.as_str()) {
        precedes(a.label.as_str(), b.label.as_str())
    } else {
        precedes(a.id.as_str(), b.id.as_str())
    }
}

/// Puts a sensor where it belongs.
fn place(sensors: &mut Vec<Sensor>, one: Sensor)
    requires
        sensors_in_order(views(old(sensors)@)),
    ensures
        sensors_in_order(views(final(sensors)@)),
        views(final(sensors)@).to_multiset() == views(old(sensors)@).to_multiset().insert(one@),
        final(sensors)@.len() == old(sensors)@.len() + 1,
{
    let ghost before = views(sensors@);
    let mut i: usize = 0;
    while i < sensors.len() && !stands_before(&one, &sensors[i])
        invariant
            i <= sensors@.len(),
            *sensors == *old(sensors),
            before == views(sensors@),
            forall|k: int| 0 <= k < i ==> !sensor_before(one@, #[trigger] before[k]),
        decreases sensors@.len() - i,
    {
        assert(before[i as int] == sensors@[i as int]@);
        i += 1;
    }
    let ghost shown = one@;
    assert(i < before.len() ==> sensor_before(shown, before[i as int])) by {
        if i < before.len() {
            assert(before[i as int] == sensors@[i as int]@);
        }
    }
    sensors.insert(i, one);
    proof {
        let after = views(sensors@);
        assert(after =~= before.insert(i as int, shown));
        vstd::seq_lib::to_multiset_insert(before, i as int, shown);
        assert forall|j: int, k: int| 0 <= j < k < after.len() implies !sensor_before(
            #[trigger] after[k],
            #[trigger] after[j],
        ) by {
            if j < i && k == i {
                assert(!sensor_before(shown, before[j]));
            } else if j == i {
                let next = before[i as int];
                lemma_sensor_before_total(shown, next);
                if k - 1 > i {
                    assert(!sensor_before(before[k - 1], next));
                    lemma_sensor_before_transitive(shown, next, before[k - 1]);
                }
            } else {
                let left = if j < i {
                    j
                } else {
                    j - 1
                };
                let right = if k < i {
                    k
                } else {
                    k - 1
                };
                assert(!sensor_before(before[right], before[left]));
            }
        }
    }
}

fn copy_of(sensor: &Sensor) -> (result: Sensor)
    ensures
        result@ == sensor@,
{
    let cpu_temperature_source: CpuTemperatureSource = match &sensor.cpu_temperature_source {
        CpuTemperatureSource::Other => CpuTemperatureSource::Other,
        CpuTemperatureSource::Control { device } => CpuTemperatureSource::Control {
            device: device.clone(),
        },
        CpuTemperatureSource::Die { device } => CpuTemperatureSource::Die {
            device: device.clone(),
        },
    };
    Sensor {
        id: sensor.id.clone(),
        label: sensor.label.clone(),
        celsius: sensor.celsius,
        critical_celsius: sensor.critical_celsius,
        is_cpu: sensor.is_cpu,
        cpu_temperature_source,
    }
}

// ---------------------------------------------------------------------------
// Discovery
// ---------------------------------------------------------------------------

/// The sensors of a system, before they are brought into order.
pub open spec fn listed(monitors: Seq<MonitorView>, zones: Seq<ZoneView>) -> Seq<SensorView> {
    with_zones(found(monitors), zones)
}

/// How many readings are missing.
pub open spec fn missing(monitors: Seq<MonitorView>, zones: Seq<ZoneView>) -> nat {
    unreadable_count(found(monitors), found(monitors).len() as int) + unreadable_zones(
        found(monitors),
        zones,
    )
}

/// How many channels need the conversion of a chip.
pub open spec fn unconverted(monitors: Seq<MonitorView>, chip: Chip) -> nat {
    conversion_count(found(monitors), found(monitors).len() as int, chip)
}

/// The notice about the channels of a chip, if there are any.
pub open spec fn chip_notice(count: nat, chip: Chip) -> Seq<Seq<char>> {
    if count == 0 {
        Seq::empty()
    } else {
        seq![
            decimal(count) + " "@ + chip.shown()
                + " external sensor channel(s) require board-specific conversion and are omitted."@,
        ]
    }
}

/// The notice about readings that are missing, if there is one.
pub open spec fn missing_notice(empty: bool, count: nat) -> Seq<Seq<char>> {
    if empty {
        seq![
            "Temperature sensors are unavailable. Hardware, drivers, or permissions may limit access."@,
        ]
    } else if count > 0 {
        seq![decimal(count) + " temperature reading(s) were unavailable or invalid."@]
    } else {
        Seq::empty()
    }
}

/// The notices about the sensors of a system.
pub open spec fn sensor_notices(monitors: Seq<MonitorView>, zones: Seq<ZoneView>) -> Seq<
    Seq<char>,
> {
    missing_notice(listed(monitors, zones).len() == 0, missing(monitors, zones)) + chip_notice(
        unconverted(monitors, Chip::Vt1211),
        Chip::Vt1211,
    ) + chip_notice(unconverted(monitors, Chip::Vt8231), Chip::Vt8231) + chip_notice(
        unconverted(monitors, Chip::Wm831x),
        Chip::Wm831x,
    )
}

fn warn_of_chip(warnings: &mut Vec<String>, count: u64, chip: Chip)
    ensures
        views(final(warnings)@) == views(old(warnings)@) + chip_notice(count as nat, chip),
{
    if count > 0 {
        let mut text: String = String::new();
        push_decimal(&mut text, count);
        text.append(" ");
        text.append(chip.name());
        text.append(
            " external sensor channel(s) require board-specific conversion and are omitted.",
        );
        assert(text@ =~= chip_notice(count as nat, chip)[0]);
        warn(warnings, text);
    }
    assert(views(warnings@) =~= views(old(warnings)@) + chip_notice(count as nat, chip));
}

/// The number of channels of each chip that need a conversion.
struct Conversions {
    vt1211: u64,
    vt8231: u64,
    wm831x: u64,
}

/// The temperature sensors of a system: CPUs first, then by label. What is
/// missing among them is put to the warnings.
pub fn discover_sensors(
    monitors: &Vec<Monitor>,
    zones: &Vec<Zone>,
    warnings: &mut Vec<String>,
) -> (result: Vec<Sensor>)
    ensures
        sensors_in_order(views(result@)),
        views(result@).to_multiset() == listed(views(monitors@), views(zones@)).to_multiset(),
        views(final(warnings)@) == views(old(warnings)@) + sensor_notices(
            views(monitors@),
            views(zones@),
        ),
{
    let found_channels: Vec<Found> = find_all_channels(monitors);
    let ghost all = found(views(monitors@));
    let mut sensors: Vec<Sensor> = Vec::new();
    let mut inaccessible: u128 = 0;
    let mut conversions: Conversions = Conversions { vt1211: 0, vt8231: 0, wm831x: 0 };
    let mut k: usize = 0;
    proof {
        assert(views(sensors@) =~= kept_sensors(all, 0));
    }
    while k < found_channels.len()
        invariant
            k <= found_channels@.len(),
            all == views(found_channels@),
            sensors_in_order(views(sensors@)),
            views(sensors@).to_multiset() == kept_sensors(all, k as int).to_multiset(),
            inaccessible == unreadable_count(all, k as int),
            inaccessible <= k,
            conversions.vt1211 == conversion_count(all, k as int, Chip::Vt1211),
            conversions.vt8231 == conversion_count(all, k as int, Chip::Vt8231),
            conversions.wm831x == conversion_count(all, k as int, Chip::Wm831x),
            conversions.vt1211 <= k,
            conversions.vt8231 <= k,
            conversions.wm831x <= k,
        decreases found_channels@.len() - k,
    {
        assert(all[k as int] == found_channels@[k as int]@);
        let bearing: Aliases = aliases(&found_channels, k);
        let one: &Found = &found_channels[k];
        match one.verdict {
            Verdict::Measurement => {
                if bearing.first {
                    match &one.sensor {
                        Some(sensor) => {
                            if bearing.clear {
                                proof {
                                    vstd::seq_lib::to_multiset_build(
                                        kept_sensors(all, k as int),
                                        sensor@,
                                    );
                                }
                                place(&mut sensors, copy_of(sensor));
                            }
                        },
                        None => {
                            inaccessible += 1;
                        },
                    }
                }
            },
            Verdict::Excluded => {
                assert(rejected(all, all[k as int].source));
            },
            Verdict::Unconverted(chip) => {
                assert(rejected(all, all[k as int].source));
                if bearing.unchallenged {
                    match chip {
                        Chip::Vt1211 => {
                            conversions.vt1211 = conversions.vt1211 + 1;
                        },
                        Chip::Vt8231 => {
                            conversions.vt8231 = conversions.vt8231 + 1;
                        },
                        Chip::Wm831x => {
                            conversions.wm831x = conversions.wm831x + 1;
                        },
                    }
                }
            },
            Verdict::Faulted => {
                assert(rejected(all, all[k as int].source));
                if bearing.unchallenged {
                    inaccessible += 1;
                }
            },
        }
        k += 1;
    }
    let ghost all_zones = views(zones@);
    let ghost count = inaccessible as nat;
    let mut z: usize = 0;
    while z < zones.len()
        invariant
            z <= zones@.len(),
            all == views(found_channels@),
            all_zones == views(zones@),
            sensors_in_order(views(sensors@)),
            views(sensors@).to_multiset() == with_zones(all, all_zones.take(z as int)).to_multiset(),
            inaccessible == count + unreadable_zones(all, all_zones.take(z as int)),
            count <= usize::MAX,
            inaccessible <= count + z,
        decreases zones@.len() - z,
    {
        let zone: &Zone = &zones[z];
        let ghost before = with_zones(all, all_zones.take(z as int));
        proof {
            assert(all_zones[z as int] == zone@);
            assert(all_zones.take(z + 1).drop_last() =~= all_zones.take(z as int));
            lemma_same_ids(views(sensors@), before, zone@.source);
        }
        let source: Vec<char> = characters(zone.source.as_str());
        let name: Vec<char> = characters(zone.file_name.as_str());
        if starts(name.as_slice(), "thermal_zone") && !is_rejected(
            &found_channels,
            source.as_slice(),
        ) && !knows_id(&sensors, source.as_slice()) {
            match read_zone(zone) {
                Some(sensor) => {
                    proof {
                        vstd::seq_lib::to_multiset_build(before, sensor@);
                    }
                    place(&mut sensors, sensor);
                },
                None => {
                    inaccessible += 1;
                },
            }
        }
        z += 1;
    }
    assert(all_zones.take(z as int) =~= all_zones);
    proof {
        vstd::seq_lib::to_multiset_len(views(sensors@));
        vstd::seq_lib::to_multiset_len(listed(views(monitors@), all_zones));
    }
    let ghost start = views(warnings@);
    if sensors.len() == 0 {
        warn(
            warnings,
            "Temperature sensors are unavailable. Hardware, drivers, or permissions may limit access.".to_owned(),
        );
    } else if inaccessible > 0 {
        let shown: Vec<char> = decimal_characters(inaccessible);
        let mut text: String = string_of(shown.as_slice());
        text.append(" temperature reading(s) were unavailable or invalid.");
        warn(warnings, text);
    }
    assert(views(warnings@) =~= start + missing_notice(
        listed(views(monitors@), all_zones).len() == 0,
        missing(views(monitors@), all_zones),
    ));
    warn_of_chip(warnings, conversions.vt1211, Chip::Vt1211);
    warn_of_chip(warnings, conversions.vt8231, Chip::Vt8231);
    warn_of_chip(warnings, conversions.wm831x, Chip::Wm831x);
    assert(views(warnings@) =~= start + sensor_notices(views(monitors@), all_zones));
    sensors
}

/// Two lists with the same sensors have the same ids.
proof fn lemma_same_ids(a: Seq<SensorView>, b: Seq<SensorView>, id: Seq<char>)
    requires
        a.to_multiset() == b.to_multiset(),
    ensures
        has_id(a, id) == has_id(b, id),
{
    lemma_ids_kept(a, b, id);
    lemma_ids_kept(b, a, id);
}

proof fn lemma_ids_kept(a: Seq<SensorView>, b: Seq<SensorView>, id: Seq<char>)
    requires
        a.to_multiset() == b.to_multiset(),
    ensures
        has_id(a, id) ==> has_id(b, id),
{
    if has_id(a, id) {
        let i = choose|i: int| 0 <= i < a.len() && (#[trigger] a[i]).id == id;
        vstd::seq_lib::to_multiset_contains(a, a[i]);
        vstd::seq_lib::to_multiset_contains(b, a[i]);
        assert(a.contains(a[i]));
        let j = choose|j: int| 0 <= j < b.len() && b[j] == a[i];
        assert(b[j].id == id);
    }
}

// ---------------------------------------------------------------------------
// Laws
// ---------------------------------------------------------------------------

/// Whether the sensors that channels would be are known by the sources of the
/// channels, and read temperatures that can be believed.
spec fn faithful(all: Seq<FoundView>) -> bool {
    forall|k: int|
        0 <= k < all.len() && (#[trigger] all[k]).sensor is Some ==> all[k].sensor->0.id
            == all[k].source && is_credible(all[k].sensor->0.celsius)
}

proof fn lemma_found_in(monitor: MonitorView, n: int)
    ensures
        faithful(found_in(monitor, n)),
    decreases n,
{
    if n > 0 {
        lemma_found_in(monitor, n - 1);
    }
}

proof fn lemma_found(monitors: Seq<MonitorView>)
    ensures
        faithful(found(monitors)),
    decreases monitors.len(),
{
    if monitors.len() > 0 {
        lemma_found(monitors.drop_last());
        lemma_found_in(monitors.last(), monitors.last().attributes.len() as int);
    }
}

/// Whether sensors are known by different names, none of which is that of a
/// rejected source, and all read temperatures that can be believed.
pub open spec fn are_measurements(all: Seq<FoundView>, sensors: Seq<SensorView>) -> bool {
    &&& forall|i: int, j: int|
        0 <= i < j < sensors.len() ==> (#[trigger] sensors[i]).id != (#[trigger] sensors[j]).id
    &&& forall|i: int|
        0 <= i < sensors.len() ==> !rejected(all, (#[trigger] sensors[i]).id) && is_credible(
            sensors[i].celsius,
        )
}

proof fn lemma_kept_sensors(all: Seq<FoundView>, n: int)
    requires
        faithful(all),
        n <= all.len(),
    ensures
        are_measurements(all, kept_sensors(all, n)),
        forall|i: int|
            0 <= i < kept_sensors(all, n).len() ==> exists|k: int|
                0 <= k < n && (#[trigger] all[k]).source == (#[trigger] kept_sensors(
                    all,
                    n,
                )[i]).id,
    decreases n,
{
    if n > 0 {
        lemma_kept_sensors(all, n - 1);
        let before = kept_sensors(all, n - 1);
        let sensors = kept_sensors(all, n);
        if kept(all, n - 1) {
            assert forall|i: int| 0 <= i < sensors.len() implies exists|k: int|
                0 <= k < n && (#[trigger] all[k]).source == (#[trigger] sensors[i]).id by {
                if i < before.len() {
                    assert(sensors[i] == before[i]);
                    let k = choose|k: int|
                        0 <= k < n - 1 && (#[trigger] all[k]).source == before[i].id;
                    assert(all[k].source == sensors[i].id);
                } else {
                    assert(all[n - 1].source == sensors[i].id);
                }
            }
            assert forall|i: int, j: int| 0 <= i < j < sensors.len() implies (
            #[trigger] sensors[i]).id != (#[trigger] sensors[j]).id by {
                assert(sensors[i] == before[i]);
                if j < before.len() {
                    assert(sensors[j] == before[j]);
                } else {
                    let k = choose|k: int|
                        0 <= k < n - 1 && (#[trigger] all[k]).source == before[i].id;
                    assert(all[k].source != all[n - 1].source);
                }
            }
        }
    }
}

/// Each physical input is listed once, by whatever ways it is exposed; none that a
/// channel rejects is listed by another way; and what is listed reads temperatures
/// that can be believed.
pub proof fn lemma_listed_are_measurements(monitors: Seq<MonitorView>, zones: Seq<ZoneView>)
    ensures
        are_measurements(found(monitors), listed(monitors, zones)),
    decreases zones.len(),
{
    let all = found(monitors);
    lemma_found(monitors);
    if zones.len() == 0 {
        lemma_kept_sensors(all, all.len() as int);
    } else {
        let before = listed(monitors, zones.drop_last());
        let sensors = listed(monitors, zones);
        lemma_listed_are_measurements(monitors, zones.drop_last());
        if wanted(all, before, zones.last()) && zone_sensor(zones.last()) is Some {
            assert forall|i: int, j: int| 0 <= i < j < sensors.len() implies (
            #[trigger] sensors[i]).id != (#[trigger] sensors[j]).id by {
                assert(sensors[i] == before[i]);
                if j < before.len() {
                    assert(sensors[j] == before[j]);
                }
            }
        }
    }
}

// ---------------------------------------------------------------------------
// Laws of readings
// ---------------------------------------------------------------------------

/// A temperature can be believed exactly from 100 degrees below zero to 250 above it.
pub proof fn lemma_credible_temperatures(celsius: Double)
    requires
        celsius.finite(),
    ensures
        is_credible(celsius) <==> -100 * pow2(FINEST as nat) <= celsius.value() <= 250 * pow2(
            FINEST as nat,
        ),
{
    let coldest = Double { bits: COLDEST };
    let hottest = Double { bits: HOTTEST };
    lemma_powers();
    lemma2_to64();
    lemma2_to64_rest();
    lemma_integer_is_exact(100, 25, 2, 48, 1028);
    lemma_integer_is_exact(250, 125, 1, 46, 1029);
    assert(coldest.size() == Double::integer(100).size());
    assert(coldest.negative());
    assert(hottest.size() == Double::integer(250).size());
    assert(!hottest.negative());
    lemma_order_is_numeric(coldest, celsius);
    lemma_order_is_numeric(celsius, hottest);
}

/// A thousand times the temperature that a text gives is the number in it, but for rounding.
/// There is one exactly where the number is one and can be believed.
pub proof fn lemma_temperature_in_degrees(text: Seq<char>, value: Double)
    requires
        trimmed(text).len() > 0,
        parsed(trimmed(text)) == Some(value),
        value.finite(),
    ensures
        ({
            let celsius = value.quotient(Double::integer(1000));
            &&& celsius.finite()
            &&& differ_by(
                celsius.value() * 1000,
                value.value(),
                (abs(celsius.value()) + HIDDEN) * 1000,
            )
            &&& temperature(Some(text)) == if is_credible(celsius) {
                Some(celsius)
            } else {
                None
            }
        }),
{
    lemma_parts_of_a_number(value, 1000);
}

/// What is no text, or no number, is no temperature; and a limit is a temperature above zero.
pub proof fn lemma_no_temperature(text: Option<Seq<char>>)
    ensures
        text is None ==> temperature(text) is None,
        text is Some && trimmed(text->0).len() == 0 ==> temperature(text) is None,
        text is Some && parsed(trimmed(text->0)) is None ==> temperature(text) is None,
        limit(text) matches Some(celsius) ==> temperature(text) == Some(celsius)
            && celsius.value() > 0,
        temperature(text) matches Some(celsius) ==> celsius.finite() && (celsius.value() > 0
            ==> limit(text) == Some(celsius)),
{
    if let Some(celsius) = temperature(text) {
        assert(celsius.finite());
        assert(units(0) == 0);
        lemma_order_is_numeric(Double::zero(), celsius);
    }
}

/// The critical temperature of a zone is that of one of its critical trip points, and none of
/// them has a lower one.
pub proof fn lemma_lowest_critical(points: Seq<TripPointView>, i: int)
    ensures
        match lowest_critical(points) {
            Some(lowest) => {
                &&& exists|k: int|
                    0 <= k < points.len() && critical_point(#[trigger] points[k]) == Some(lowest)
                &&& 0 <= i < points.len() && critical_point(points[i]) is Some ==> lowest.value()
                    <= critical_point(points[i])->0.value()
            },
            None => 0 <= i < points.len() ==> critical_point(points[i]) is None,
        },
    decreases points.len(),
{
    if points.len() > 0 {
        let rest = points.drop_last();
        let last = points.last();
        assert(points[points.len() - 1] == last);
        assert(forall|k: int| 0 <= k < rest.len() ==> rest[k] == #[trigger] points[k]);
        lemma_lowest_critical(rest, i);
        lemma_no_temperature(last.temperature);
        if let Some(before) = lowest_critical(rest) {
            let k = choose|k: int|
                0 <= k < rest.len() && critical_point(#[trigger] rest[k]) == Some(before);
            assert(critical_point(points[k]) == Some(before));
            lemma_no_temperature(rest[k].temperature);
            if let Some(next) = critical_point(last) {
                lemma_order_is_numeric(before, next);
                lemma_order_is_numeric(next, before);
            }
        }
    }
}

/// A trip point counts as critical exactly where it is one of a zone and says so.
pub proof fn lemma_critical_points(number: Seq<char>, kind: Seq<char>, text: Seq<char>)
    ensures
        ({
            let point = TripPointView {
                file_name: "trip_point_"@ + number + "_type"@,
                kind: Some(kind),
                temperature: Some(text),
            };
            &&& trimmed(kind) == "critical"@ ==> critical_point(point) == limit(Some(text))
            &&& trimmed(kind) != "critical"@ ==> critical_point(point) is None
        }),
{
    let prefix = "trip_point_"@ + number;
    let name = prefix + "_type"@;
    reveal_strlit("critical");
    assert("critical"@.len() == 8);
    assert(name.take(name.len() - "_type"@.len()) =~= prefix);
    assert(name.skip(name.len() - "_type"@.len()) =~= "_type"@);
    assert(prefix.take("trip_point_"@.len() as int) =~= "trip_point_"@);
}

// ---------------------------------------------------------------------------
// Laws of channels
// ---------------------------------------------------------------------------

/// An input file of a channel is named `temp`, a number and `_input`.
pub proof fn lemma_channel_names(number: nat, other: Seq<char>)
    ensures
        channel_of("temp"@ + decimal(number) + "_input"@) == Some("temp"@ + decimal(number)),
        channel_of(other) matches Some(channel) ==> other == channel + "_input"@ && begins(
            channel,
            "temp"@,
        ) && all_digits(channel.skip("temp"@.len() as int)),
{
    let channel = "temp"@ + decimal(number);
    let name = channel + "_input"@;
    lemma_decimal_counts(number);
    assert(name.take(name.len() - "_input"@.len()) =~= channel);
    assert(name.skip(name.len() - "_input"@.len()) =~= "_input"@);
    assert(channel.take("temp"@.len() as int) =~= "temp"@);
    assert(channel.skip("temp"@.len() as int) =~= decimal(number));
    if let Some(found) = channel_of(other) {
        assert(other =~= found + "_input"@);
    }
}

/// A channel that is disabled or reports a fault is no measurement, whatever its driver; nor
/// is a target of control, an unused channel, or one that needs a conversion. Any other is.
pub proof fn lemma_what_is_a_measurement(
    driver: Seq<char>,
    channel: Seq<char>,
    attribute: AttributeView,
)
    ensures
        ({
            let found = verdict(driver, channel, attribute);
            let disabled = attribute.enable is Some && trimmed(attribute.enable->0) == "0"@;
            let faulted = attribute.fault is Some && trimmed(attribute.fault->0) == "1"@;
            let unused = is_it87(driver) && attribute.kind is Some && trimmed(attribute.kind->0)
                == "0"@;
            let target = is_peci_cpu(driver) && (channel == "temp3"@ || channel == "temp4"@
                || channel == "temp5"@);
            let converted = conversion(driver, channel) is Some;
            &&& disabled || unused || target ==> found == Verdict::Excluded
            &&& faulted ==> found != Verdict::Measurement
            &&& converted ==> found != Verdict::Measurement
            &&& !disabled && !faulted && !unused && !target && !converted ==> found
                == Verdict::Measurement
            &&& found == Verdict::Faulted ==> faulted
        }),
{
    reveal_strlit("0");
    reveal_strlit("1");
    assert("0"@.len() == 1 && "1"@.len() == 1);
}

/// Which channels need a conversion: of a VT1211 all but the second, of a WM831x the second,
/// and of a VT8231 the second to the sixth.
pub proof fn lemma_which_channels_need_conversion(driver: Seq<char>, channel: Seq<char>)
    ensures
        driver == "vt1211"@ ==> (conversion(driver, channel) == Some(Chip::Vt1211) <==> channel
            != "temp2"@),
        driver == "wm831x"@ ==> (conversion(driver, channel) == Some(Chip::Wm831x) <==> channel
            == "temp2"@),
        driver == "vt8231"@ ==> (conversion(driver, channel) == Some(Chip::Vt8231) <==> channel
            == "temp2"@ || channel == "temp3"@ || channel == "temp4"@ || channel == "temp5"@
            || channel == "temp6"@),
        driver != "vt1211"@ && driver != "wm831x"@ && driver != "vt8231"@ ==> conversion(
            driver,
            channel,
        ) is None,
{
    reveal_strlit("vt1211");
    reveal_strlit("wm831x");
    reveal_strlit("vt8231");
    assert("vt1211"@[2] == '1' && "wm831x"@[0] == 'w' && "vt8231"@[2] == '8');
    assert("vt1211"@[0] == 'v' && "vt8231"@[0] == 'v');
}

/// The sensor of a channel is known by its source, reads its input, has the limit of its own
/// critical file, and is labelled by its driver and its label, or its channel where it has
/// none.
pub proof fn lemma_sensor_of_a_channel(
    driver: Seq<char>,
    device: Seq<char>,
    channel: Seq<char>,
    attribute: AttributeView,
)
    ensures
        channel_sensor(driver, device, channel, attribute) is Some <==> temperature(
            attribute.input,
        ) is Some,
        channel_sensor(driver, device, channel, attribute) matches Some(sensor) ==> {
            let label = if attribute.label is Some && trimmed(attribute.label->0).len() > 0 {
                trimmed(attribute.label->0)
            } else {
                channel
            };
            &&& sensor.id == attribute.source
            &&& Some(sensor.celsius) == temperature(attribute.input)
            &&& sensor.critical_celsius == limit(attribute.critical)
            &&& sensor.label == driver + " · "@ + label
            &&& sensor.is_cpu == names_cpu(driver, label)
            &&& sensor.source == (SourceView::Control { device }) <==> (driver == "k10temp"@
                || driver == "zenpower"@) && label == "Tctl"@
            &&& sensor.source == (SourceView::Die { device }) <==> (driver == "k10temp"@ || driver
                == "zenpower"@) && label == "Tdie"@
        },
{
    reveal_strlit("Tctl");
    reveal_strlit("Tdie");
    assert("Tctl"@[1] == 'c' && "Tdie"@[1] == 'd');
}

/// The sensor of a zone is known by its source, reads its input, and has the lowest of its
/// critical temperatures.
pub proof fn lemma_sensor_of_a_zone(zone: ZoneView)
    ensures
        zone_sensor(zone) is Some <==> temperature(zone.input) is Some,
        zone_sensor(zone) matches Some(sensor) ==> {
            &&& sensor.id == zone.source
            &&& Some(sensor.celsius) == temperature(zone.input)
            &&& sensor.critical_celsius == lowest_critical(zone.trip_points)
            &&& sensor.source == SourceView::Other
            &&& zone.kind is Some && trimmed(zone.kind->0).len() > 0 ==> sensor.label == trimmed(
                zone.kind->0,
            )
            &&& zone.kind is None ==> sensor.label == zone.file_name
        },
{
}

/// Whether a name is that of a CPU does not depend on the case of its letters, and what is said
/// to be of a voltage regulator or of memory is none.
pub proof fn lemma_names_of_cpus(source: Seq<char>, label: Seq<char>)
    ensures
        names_cpu(ascii_lowercase(source), ascii_lowercase(label)) == names_cpu(source, label),
        holds(ascii_lowercase(source), "vrm"@) || holds(ascii_lowercase(label), "vrm"@)
            ==> !names_cpu(source, label),
        ascii_lowercase(source) == "peci_dimmtemp"@ ==> !names_cpu(source, label),
        names_cpu(source, label) ==> mentions_cpu(ascii_lowercase(source)) || mentions_cpu(
            ascii_lowercase(label),
        ),
        !names_cpu(source, label) && (mentions_cpu(ascii_lowercase(source)) || mentions_cpu(
            ascii_lowercase(label),
        )) ==> {
            ||| holds(ascii_lowercase(source), "vrm"@) || holds(ascii_lowercase(label), "vrm"@)
            ||| ascii_lowercase(source) == "peci_dimmtemp"@ || begins(
                ascii_lowercase(source),
                "peci_dimmtemp."@,
            )
            ||| ascii_lowercase(source) == "pch_chip_cpu_max_temp"@ || ascii_lowercase(label)
                == "pch_chip_cpu_max_temp"@
        },
{
    assert(ascii_lowercase(ascii_lowercase(source)) =~= ascii_lowercase(source));
    assert(ascii_lowercase(ascii_lowercase(label)) =~= ascii_lowercase(label));
}

/// By which parts a name is known to be that of a CPU.
pub proof fn lemma_parts_of_cpu_names(name: Seq<char>)
    ensures
        mentions_cpu(name) <==> {
            ||| holds(name, "coretemp"@) || holds(name, "k10temp"@) || holds(name, "k8temp"@)
            ||| holds(name, "zenpower"@) || holds(name, "cpu"@) || holds(name, "x86_pkg"@)
            ||| holds(name, "soc_thermal"@) || holds(name, "tctl"@) || holds(name, "tdie"@)
        },
{
}

proof fn lemma_kept_is_listed(all: Seq<FoundView>, zones: Seq<ZoneView>, sensor: SensorView)
    requires
        kept_sensors(all, all.len() as int).contains(sensor),
    ensures
        with_zones(all, zones).contains(sensor),
    decreases zones.len(),
{
    if zones.len() > 0 {
        lemma_kept_is_listed(all, zones.drop_last(), sensor);
        let before = with_zones(all, zones.drop_last());
        let i = choose|i: int| 0 <= i < before.len() && before[i] == sensor;
        assert(with_zones(all, zones)[i] == sensor);
    }
}

proof fn lemma_kept_contains(all: Seq<FoundView>, n: int, k: int)
    requires
        0 <= k < n <= all.len(),
        kept(all, k),
    ensures
        kept_sensors(all, n).contains(all[k].sensor->0),
    decreases n,
{
    let sensors = kept_sensors(all, n);
    if k == n - 1 {
        assert(sensors[sensors.len() - 1] == all[k].sensor->0);
    } else {
        lemma_kept_contains(all, n - 1, k);
        let before = kept_sensors(all, n - 1);
        let i = choose|i: int| 0 <= i < before.len() && before[i] == all[k].sensor->0;
        assert(sensors[i] == before[i]);
    }
}

/// Every input that can be read is listed, by the first of the channels that lead to it, where
/// none of them rejects it.
pub proof fn lemma_every_input_is_listed(
    monitors: Seq<MonitorView>,
    zones: Seq<ZoneView>,
    k: int,
)
    requires
        0 <= k < found(monitors).len(),
        found(monitors)[k].sensor is Some,
        forall|j: int|
            0 <= j < found(monitors).len() && (#[trigger] found(monitors)[j]).source == found(
                monitors,
            )[k].source ==> found(monitors)[j].verdict == Verdict::Measurement && j >= k,
    ensures
        listed(monitors, zones).contains(found(monitors)[k].sensor->0),
{
    let all = found(monitors);
    assert(kept(all, k)) by {
        assert(!rejected(all, all[k].source)) by {
            if rejected(all, all[k].source) {
                let j = choose|j: int|
                    0 <= j < all.len() && (#[trigger] all[j]).source == all[k].source && rejecting(
                        all[j],
                    );
                assert(all[j].verdict == Verdict::Measurement);
            }
        }
        assert forall|j: int| 0 <= j < k implies (#[trigger] all[j]).source != all[k].source by {
            assert(all[j].source == all[k].source ==> j >= k);
        }
    }
    lemma_kept_contains(all, all.len() as int, k);
    lemma_kept_is_listed(all, zones, all[k].sensor->0);
}

/// A zone that can be read is listed behind the others, where nothing else leads to its source.
pub proof fn lemma_zone_is_listed(
    monitors: Seq<MonitorView>,
    zones: Seq<ZoneView>,
    zone: ZoneView,
)
    ensures
        ({
            let before = listed(monitors, zones);
            let after = listed(monitors, zones.push(zone));
            let known = rejected(found(monitors), zone.source) || has_id(before, zone.source);
            &&& begins(zone.file_name, "thermal_zone"@) && !known && temperature(zone.input) is Some
                ==> after == before.push(zone_sensor(zone)->0)
            &&& !begins(zone.file_name, "thermal_zone"@) || known || temperature(zone.input) is None
                ==> after == before
        }),
{
    assert(zones.push(zone).drop_last() =~= zones);
}

/// Every channel of every monitor is found, in the order in which they are exposed.
pub proof fn lemma_every_channel_is_found(monitors: Seq<MonitorView>, monitor: MonitorView, n: int)
    requires
        0 <= n < monitor.attributes.len(),
    ensures
        found(Seq::empty()).len() == 0,
        found(monitors.push(monitor)) == found(monitors) + found_in(
            monitor,
            monitor.attributes.len() as int,
        ),
        found_in(monitor, 0).len() == 0,
        channel_of(monitor.attributes[n].file_name) is None ==> found_in(monitor, n + 1)
            == found_in(monitor, n),
        channel_of(monitor.attributes[n].file_name) matches Some(channel) ==> {
            let attribute = monitor.attributes[n];
            let last = found_in(monitor, n + 1).last();
            &&& found_in(monitor, n + 1) == found_in(monitor, n).push(last)
            &&& last.source == attribute.source
            &&& last.verdict == verdict(driver_of(monitor), channel, attribute)
            &&& last.sensor == channel_sensor(
                driver_of(monitor),
                monitor.device,
                channel,
                attribute,
            )
        },
{
    assert(monitors.push(monitor).drop_last() =~= monitors);
    let before = found_in(monitor, n);
    if let Some(channel) = channel_of(monitor.attributes[n].file_name) {
        let after = found_in(monitor, n + 1);
        assert(after =~= before.push(after.last()));
    }
}

/// CPUs stand before other sensors; among either, sensors stand in the order of their labels,
/// and those of one label in the order of their sources.
pub proof fn lemma_order_of_sensors(a: SensorView, b: SensorView)
    ensures
        a.is_cpu && !b.is_cpu ==> sensor_before(a, b) && !sensor_before(b, a),
        a.is_cpu == b.is_cpu && text_less(a.label, b.label) ==> sensor_before(a, b)
            && !sensor_before(b, a),
        a.is_cpu == b.is_cpu && a.label == b.label && text_less(a.id, b.id) ==> sensor_before(a, b)
            && !sensor_before(b, a),
{
    lemma_text_total(a.label, b.label);
    lemma_text_total(a.id, b.id);
    lemma_text_irreflexive(a.label);
}

// ---------------------------------------------------------------------------
// What is said of sensors
// ---------------------------------------------------------------------------

/// A sensor that more than one channel leads to is told of as unreadable once at most: by the
/// first that rejects it as faulted, or by the first of all where its temperature cannot be
/// read.
pub proof fn lemma_what_is_unreadable(all: Seq<FoundView>, k: int, j: int)
    requires
        0 <= j < k < all.len(),
        all[j].source == all[k].source,
    ensures
        rejecting(all[j]) && rejecting(all[k]) ==> !unreadable(all, k),
        !rejecting(all[k]) ==> !unreadable(all, k),
        rejecting(all[k]) && all[k].verdict != Verdict::Faulted ==> !unreadable(all, k),
{
}

/// How many cannot be read is how many of them there are, one by one; so with those that need
/// a conversion.
pub proof fn lemma_unreadable_are_counted(all: Seq<FoundView>, n: int, chip: Chip)
    requires
        0 <= n < all.len(),
    ensures
        unreadable_count(all, 0) == 0,
        conversion_count(all, 0, chip) == 0,
        unreadable(all, n) ==> unreadable_count(all, n + 1) == unreadable_count(all, n) + 1,
        !unreadable(all, n) ==> unreadable_count(all, n + 1) == unreadable_count(all, n),
        all[n].verdict == Verdict::Unconverted(chip) && (forall|j: int|
            0 <= j < n ==> (#[trigger] all[j]).source != all[n].source) ==> conversion_count(
            all,
            n + 1,
            chip,
        ) == conversion_count(all, n, chip) + 1,
        all[n].verdict != Verdict::Unconverted(chip) ==> conversion_count(all, n + 1, chip)
            == conversion_count(all, n, chip),
{
}

/// Where no sensor is listed, that is said; else how many readings are missing, if any are.
/// Each chip that needs a conversion is told of with how many channels it leaves out.
pub proof fn lemma_what_is_said_of_sensors(count: nat, chip: Chip)
    ensures
        missing_notice(true, count).len() == 1,
        missing_notice(false, 0).len() == 0,
        count > 0 ==> missing_notice(false, count).len() == 1 && begins(
            missing_notice(false, count)[0],
            decimal(count),
        ),
        chip_notice(0, chip).len() == 0,
        count > 0 ==> chip_notice(count, chip).len() == 1 && begins(
            chip_notice(count, chip)[0],
            decimal(count) + " "@ + chip.shown(),
        ),
{
    if count > 0 {
        let first = missing_notice(false, count)[0];
        let start = decimal(count) + " "@ + chip.shown();
        let text = chip_notice(count, chip)[0];
        assert(first.take(decimal(count).len() as int) =~= decimal(count));
        assert(text.take(start.len() as int) =~= start);
    }
}

} // verus!
