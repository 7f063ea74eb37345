//! Network interfaces: whether they are up, and the rates of what they receive and
//! transmit.

use crate::accuracy::is_rate;
use crate::counters::{
    counter_rate, interface_index, lemma_counters_in_order, lemma_rate_is_what_moved_on,
    network_counters, network_ifindex, parse_networks, Counters,
};
use crate::disks::{is_measured, lemma_measured, rate_from};
use crate::double::Double;
use crate::metrics::Collector;
use crate::readings::{
    elapsed_since, find_identity, identities, identity_text, read_notice, read_required,
    seconds_since, warn, Identity, Reading,
};
use crate::table::{
    in_order, inserted, lemma_inserted_in_order, lemma_inserted_lookup, lemma_lookup_last, lookup,
    text_less, Named, Table,
};
use crate::text::{
    all_hex_digits, begins, decimal, hex_digit, hex_value, hexadecimal, lemma_hex_value_bound,
    lemma_views_push, lines, optional_view, parse_hexadecimal, push_decimal, read_trimmed, said,
    same_text, spells, trimmed, unsigned, views,
};
use vstd::prelude::*;
use vstd::slice::slice_subrange;

verus! {

/// A network interface.
#[derive(Clone, Debug)]
pub struct Network {
    pub name: String,
    pub received_bytes_per_sec: Option<Double>,
    pub transmitted_bytes_per_sec: Option<Double>,
    pub total_received_bytes: u64,
    pub total_transmitted_bytes: u64,
    /// Administrative state, with a definite operational state as a fallback.
    /// None means the state is unknown or its source is unavailable.
    pub is_up: Option<bool>,
}

#[verifier::ext_equal]
pub struct NetworkView {
    pub name: Seq<char>,
    pub received_bytes_per_sec: Option<Double>,
    pub transmitted_bytes_per_sec: Option<Double>,
    pub total_received_bytes: u64,
    pub total_transmitted_bytes: u64,
    pub is_up: Option<bool>,
}

impl View for Network {
    type V = NetworkView;

    open spec fn view(&self) -> NetworkView {
        NetworkView {
            name: self.name@,
            received_bytes_per_sec: self.received_bytes_per_sec,
            transmitted_bytes_per_sec: self.transmitted_bytes_per_sec,
            total_received_bytes: self.total_received_bytes,
            total_transmitted_bytes: self.total_transmitted_bytes,
            is_up: self.is_up,
        }
    }
}

/// The counters of an interface at the last sample, and which interface it was.
#[derive(Clone, Copy, Debug, PartialEq, Eq, Structural)]
pub struct NetworkBaseline {
    pub ifindex: u32,
    pub counters: Counters,
}

/// What the files of an interface say.
#[derive(Clone, Debug)]
pub struct Interface {
    pub name: String,
    pub ifindex: Option<String>,
    pub flags: Option<String>,
    pub operstate: Option<String>,
}

#[verifier::ext_equal]
pub struct InterfaceView {
    pub name: Seq<char>,
    pub ifindex: Option<Seq<char>>,
    pub flags: Option<Seq<char>>,
    pub operstate: Option<Seq<char>>,
}

impl View for Interface {
    type V = InterfaceView;

    open spec fn view(&self) -> InterfaceView {
        InterfaceView {
            name: self.name@,
            ifindex: optional_view(self.ifindex),
            flags: optional_view(self.flags),
            operstate: optional_view(self.operstate),
        }
    }
}

/// What there is to read of the network interfaces, in the order in which it is read.
#[derive(Debug)]
pub struct NetworkReadings {
    /// The index of each interface before the counters.
    pub before: Vec<Identity>,
    pub dev: Reading,
    /// When the counters were read, in nanoseconds.
    pub at: u64,
    /// The files of each interface, behind the counters.
    pub interfaces: Vec<Interface>,
}

/// The files of an interface by its name; nothing can be read of one that is
/// not there.
pub open spec fn interface_named(list: Seq<InterfaceView>, name: Seq<char>) -> InterfaceView
    decreases list.len(),
{
    if list.len() == 0 {
        InterfaceView { name, ifindex: None, flags: None, operstate: None }
    } else if list[0].name == name {
        list[0]
    } else {
        interface_named(list.skip(1), name)
    }
}

/// What stands behind any number of `0x` at the start of a text.
pub open spec fn without_prefix(s: Seq<char>) -> Seq<char>
    decreases s.len(),
{
    if s.len() >= 2 && s[0] == '0' && s[1] == 'x' {
        without_prefix(s.skip(2))
    } else {
        s
    }
}

/// Whether the flags of an interface, in hexadecimal digits, say that it is up.
/// That is what their lowest bit says.
pub open spec fn flags_up(text: Option<Seq<char>>) -> Option<bool> {
    match said(text) {
        Some(inner) => match hexadecimal(without_prefix(inner)) {
            Some(flags) => Some(flags % 2 == 1),
            None => None,
        },
        None => None,
    }
}

/// Whether the operational state of an interface says definitely that it is up.
pub open spec fn state_up(text: Option<Seq<char>>) -> Option<bool> {
    match said(text) {
        Some(inner) => if inner == "up"@ {
            Some(true)
        } else if inner == "down"@ || inner == "lowerlayerdown"@ {
            Some(false)
        } else {
            None
        },
        None => None,
    }
}

/// Whether an interface is up.
pub open spec fn interface_up(interface: InterfaceView) -> Option<bool> {
    match flags_up(interface.flags) {
        Some(up) => Some(up),
        None => state_up(interface.operstate),
    }
}

/// The identities of interfaces, by name.
pub struct NetworkIdentities {
    pub before: Seq<(Seq<char>, Option<Seq<char>>)>,
    pub interfaces: Seq<InterfaceView>,
}

impl NetworkIdentities {
    /// The index of an interface, where it was the same before and behind the
    /// counters.
    pub open spec fn of(self, name: Seq<char>) -> Option<nat> {
        let behind = interface_index(interface_named(self.interfaces, name).ifindex);
        if behind == interface_index(identity_text(self.before, name)) {
            behind
        } else {
            None
        }
    }
}

/// The counters that a rate can start from: those of the same interface.
pub open spec fn network_start(
    previous: Seq<(Seq<char>, NetworkBaseline)>,
    name: Seq<char>,
    identity: Option<nat>,
) -> Option<Counters> {
    match (lookup(previous, name), identity) {
        (Some(baseline), Some(index)) => if baseline.ifindex == index {
            Some(baseline.counters)
        } else {
            None
        },
        _ => None,
    }
}

/// What a sample says of an interface.
pub open spec fn network_of(
    name: Seq<char>,
    current: Counters,
    start: Option<Counters>,
    elapsed: Option<Double>,
    is_up: Option<bool>,
) -> NetworkView {
    NetworkView {
        name,
        received_bytes_per_sec: rate_from(start, current, false, elapsed),
        transmitted_bytes_per_sec: rate_from(start, current, true, elapsed),
        total_received_bytes: current.first,
        total_transmitted_bytes: current.second,
        is_up,
    }
}

/// What a sample says of the interfaces.
pub open spec fn networks_of(
    counters: Seq<(Seq<char>, Counters)>,
    previous: Seq<(Seq<char>, NetworkBaseline)>,
    ids: NetworkIdentities,
    elapsed: Option<Double>,
) -> Seq<NetworkView> {
    counters.map_values(
        |one: (Seq<char>, Counters)|
            network_of(
                one.0,
                one.1,
                network_start(previous, one.0, ids.of(one.0)),
                elapsed,
                interface_up(interface_named(ids.interfaces, one.0)),
            ),
    )
}

/// The counters that the next sample starts from: of the interfaces that are known.
pub open spec fn network_baselines(
    counters: Seq<(Seq<char>, Counters)>,
    ids: NetworkIdentities,
) -> Seq<(Seq<char>, NetworkBaseline)>
    decreases counters.len(),
{
    if counters.len() == 0 {
        Seq::empty()
    } else {
        let before = network_baselines(counters.drop_last(), ids);
        let (name, current) = counters.last();
        match ids.of(name) {
            Some(index) => inserted(
                before,
                name,
                NetworkBaseline { ifindex: index as u32, counters: current },
            ),
            None => before,
        }
    }
}

/// How many of the interfaces are not known.
pub open spec fn unknown_networks(
    counters: Seq<(Seq<char>, Counters)>,
    ids: NetworkIdentities,
) -> nat
    decreases counters.len(),
{
    if counters.len() == 0 {
        0
    } else {
        unknown_networks(counters.drop_last(), ids) + if ids.of(counters.last().0) is None {
            1nat
        } else {
            0nat
        }
    }
}

/// Of how many interfaces it is not known whether they are up.
pub open spec fn unknown_states(
    counters: Seq<(Seq<char>, Counters)>,
    interfaces: Seq<InterfaceView>,
) -> nat
    decreases counters.len(),
{
    if counters.len() == 0 {
        0
    } else {
        unknown_states(counters.drop_last(), interfaces) + if interface_up(
            interface_named(interfaces, counters.last().0),
        ) is None {
            1nat
        } else {
            0nat
        }
    }
}

/// The notices about the interfaces of a sample.
pub open spec fn network_notices(count: nat, unknown: nat, stateless: nat) -> Seq<Seq<char>> {
    let none = if count == 0 {
        seq!["No non-loopback network interfaces were found."@]
    } else {
        Seq::empty()
    };
    let unidentified = if unknown > 0 {
        seq![
            decimal(unknown)
                + " network interface identity reading(s) were unavailable or changed during collection; their rates are unavailable."@,
        ]
    } else {
        Seq::empty()
    };
    let undecided = if stateless > 0 {
        seq![
            decimal(stateless)
                + " network interface status reading(s) were unavailable or unknown; their status is unavailable."@,
        ]
    } else {
        Seq::empty()
    };
    none + unidentified + undecided
}

impl NetworkReadings {
    pub open spec fn ids(self) -> NetworkIdentities {
        NetworkIdentities {
            before: identities(self.before@),
            interfaces: views(self.interfaces@),
        }
    }

    /// The counters of the interfaces, where they could be read.
    pub open spec fn counters(self) -> Option<Seq<(Seq<char>, Counters)>> {
        match self.dev.text {
            Ok(text) => Some(network_counters(lines(text@))),
            Err(_) => None,
        }
    }

    /// What a sample says of the interfaces.
    pub open spec fn networks(
        self,
        previous: Seq<(Seq<char>, NetworkBaseline)>,
        previous_time: Option<u64>,
    ) -> Seq<NetworkView> {
        match self.counters() {
            Some(counters) => networks_of(
                counters,
                previous,
                self.ids(),
                seconds_since(previous_time, self.at),
            ),
            None => Seq::empty(),
        }
    }

    /// What the next sample starts from.
    pub open spec fn baselines(self) -> Seq<(Seq<char>, NetworkBaseline)> {
        match self.counters() {
            Some(counters) => network_baselines(counters, self.ids()),
            None => Seq::empty(),
        }
    }

    pub open spec fn time(self) -> Option<u64> {
        match self.counters() {
            Some(_) => Some(self.at),
            None => None,
        }
    }

    /// The notices of a sample about the interfaces.
    pub open spec fn notices(self) -> Seq<Seq<char>> {
        match self.counters() {
            Some(counters) => network_notices(
                counters.len(),
                unknown_networks(counters, self.ids()),
                unknown_states(counters, views(self.interfaces@)),
            ),
            None => read_notice(self.dev@),
        }
    }
}

fn steady_index(readings: &NetworkReadings, name: &str, found: Option<&Interface>) -> (result:
    Option<u32>)
    requires
        match found {
            Some(one) => interface_named(views(readings.interfaces@), name@) == one@,
            None => interface_named(views(readings.interfaces@), name@).ifindex is None,
        },
    ensures
        result matches Some(index) ==> readings.ids().of(name@) == Some(index as nat),
        result is None ==> readings.ids().of(name@) is None,
{
    let behind: Option<u32> = match found {
        Some(one) => network_ifindex(&one.ifindex),
        None => None,
    };
    let ahead: Option<u32> = match find_identity(&readings.before, name) {
        Some(one) => network_ifindex(&one.text),
        None => None,
    };
    match (behind, ahead) {
        (Some(index), Some(other)) => if index == other {
            Some(index)
        } else {
            None
        },
        _ => None,
    }
}

fn find_interface<'a>(list: &'a Vec<Interface>, name: &str) -> (result: Option<&'a Interface>)
    ensures
        match result {
            Some(one) => interface_named(views(list@), name@) == one@,
            None => interface_named(views(list@), name@) == (InterfaceView {
                name: name@,
                ifindex: None,
                flags: None,
                operstate: None,
            }),
        },
{
    let ghost all = views(list@);
    let mut i: usize = 0;
    assert(all.skip(0) =~= all);
    while i < list.len()
        invariant
            i <= list@.len(),
            all == views(list@),
            interface_named(all, name@) == interface_named(all.skip(i as int), name@),
        decreases list@.len() - i,
    {
        assert(all[i as int] == list@[i as int]@);
        assert(all.skip(i as int).skip(1) =~= all.skip(i + 1));
        if same_text(list[i].name.as_str(), name) {
            return Some(&list[i]);
        }
        i += 1;
    }
    None
}

fn read_flags(text: &Option<String>) -> (result: Option<bool>)
    ensures
        result == flags_up(optional_view(*text)),
{
    match read_trimmed(text) {
        Some(inner) => {
            let mut i: usize = 0;
            assert(inner@.skip(0) =~= inner@);
            while inner.len() - i >= 2 && inner[i] == '0' && inner[i + 1] == 'x'
                invariant
                    i <= inner@.len(),
                    without_prefix(inner@) == without_prefix(inner@.skip(i as int)),
                decreases inner@.len() - i,
            {
                assert(inner@.skip(i as int).skip(2) =~= inner@.skip(i + 2));
                i += 2;
            }
            let rest: &[char] = slice_subrange(inner.as_slice(), i, inner.len());
            assert(rest@ =~= inner@.skip(i as int));
            match parse_hexadecimal(rest) {
                Some(flags) => Some(flags % 2 == 1),
                None => None,
            }
        },
        None => None,
    }
}

fn read_state(text: &Option<String>) -> (result: Option<bool>)
    ensures
        result == state_up(optional_view(*text)),
{
    match read_trimmed(text) {
        Some(inner) => if spells(inner.as_slice(), "up") {
            Some(true)
        } else if spells(inner.as_slice(), "down") || spells(inner.as_slice(), "lowerlayerdown") {
            Some(false)
        } else {
            None
        },
        None => None,
    }
}

impl Collector {
    /// The network interfaces of a sample. An interface has rates where the one
    /// before it under its name was the same interface, and no other took its
    /// place while the counters were read.
    pub fn sample_networks(
        &mut self,
        readings: &NetworkReadings,
        warnings: &mut Vec<String>,
    ) -> (result: Vec<Network>)
        ensures
            final(self).previous_cpu == old(self).previous_cpu,
            final(self).previous_disks == old(self).previous_disks,
            final(self).previous_disk_time == old(self).previous_disk_time,
            final(self).hostname == old(self).hostname,
            final(self).kernel == old(self).kernel,
            views(result@) == readings.networks(
                old(self).previous_networks@,
                old(self).previous_network_time,
            ),
            final(self).previous_networks@ == readings.baselines(),
            final(self).previous_network_time == readings.time(),
            views(final(warnings)@) == views(old(warnings)@) + readings.notices(),
    {
        let ghost start = views(warnings@);
        let text: &String = match read_required(&readings.dev, warnings) {
            Some(text) => text,
            None => {
                self.previous_networks = Table::new();
                self.previous_network_time = None;
                let none: Vec<Network> = Vec::new();
                assert(views(none@) =~= Seq::<NetworkView>::empty());
                return none;
            },
        };
        assert(views(warnings@) =~= start);
        let elapsed: Option<Double> = elapsed_since(self.previous_network_time, readings.at);
        let found: Table<Counters> = parse_networks(text.as_str());
        let ghost all = found@;
        let ghost ids = readings.ids();
        let ghost interfaces = views(readings.interfaces@);
        let ghost previous = self.previous_networks@;
        let mut baselines: Table<NetworkBaseline> = Table::new();
        let mut networks: Vec<Network> = Vec::new();
        let mut unknown: u64 = 0;
        let mut stateless: u64 = 0;
        let mut i: usize = 0;
        proof {
            assert(all.take(0) =~= Seq::<(Seq<char>, Counters)>::empty());
            assert(views(networks@) =~= networks_of(all.take(0), previous, ids, elapsed));
        }
        while i < found.entries.len()
            invariant
                i <= found.entries@.len(),
                all == found@,
                all.len() == found.entries@.len(),
                *self == *old(self),
                previous == self.previous_networks@,
                ids == readings.ids(),
                interfaces == views(readings.interfaces@),
                views(networks@) == networks_of(all.take(i as int), previous, ids, elapsed),
                baselines@ == network_baselines(all.take(i as int), ids),
                unknown == unknown_networks(all.take(i as int), ids),
                unknown <= i,
                stateless == unknown_states(all.take(i as int), interfaces),
                stateless <= i,
            decreases found.entries@.len() - i,
        {
            let ghost before = all.take(i as int);
            let entry: &Named<Counters> = &found.entries[i];
            let current: Counters = entry.value;
            assert(all[i as int] == (entry.name@, current));
            assert(all.take(i + 1).drop_last() =~= before);
            assert(all.take(i + 1) =~= before.push((entry.name@, current)));
            let files: Option<&Interface> = find_interface(
                &readings.interfaces,
                entry.name.as_str(),
            );
            let ghost shown = interface_named(interfaces, entry.name@);
            let identity: Option<u32> = steady_index(readings, entry.name.as_str(), files);
            let from: Option<Counters> = match (
                self.previous_networks.get(entry.name.as_str()),
                identity,
            ) {
                (Some(baseline), Some(index)) => if baseline.ifindex == index {
                    Some(baseline.counters)
                } else {
                    None
                },
                _ => None,
            };
            assert(from == network_start(previous, entry.name@, ids.of(entry.name@)));
            match identity {
                Some(ifindex) => {
                    baselines.insert(
                        entry.name.clone(),
                        NetworkBaseline { ifindex, counters: current },
                    );
                },
                None => {
                    unknown += 1;
                },
            }
            let is_up: Option<bool> = match files {
                Some(one) => match read_flags(&one.flags) {
                    Some(up) => Some(up),
                    None => read_state(&one.operstate),
                },
                None => None,
            };
            assert(is_up == interface_up(shown));
            if is_up.is_none() {
                stateless += 1;
            }
            let network: Network = Network {
                name: entry.name.clone(),
                received_bytes_per_sec: match from {
                    Some(old_counters) => counter_rate(old_counters.first, current.first, elapsed),
                    None => None,
                },
                transmitted_bytes_per_sec: match from {
                    Some(old_counters) => counter_rate(
                        old_counters.second,
                        current.second,
                        elapsed,
                    ),
                    None => None,
                },
                total_received_bytes: current.first,
                total_transmitted_bytes: current.second,
                is_up,
            };
            assert(network@ =~= network_of(entry.name@, current, from, elapsed, is_up));
            proof {
                lemma_views_push(networks@, network);
            }
            networks.push(network);
            assert(views(networks@) =~= networks_of(
                before.push((entry.name@, current)),
                previous,
                ids,
                elapsed,
            ));
            i += 1;
        }
        assert(all.take(i as int) =~= all);
        assert(networks@.len() == all.len()) by {
            assert(views(networks@).len() == networks@.len());
        }
        if networks.len() == 0 {
            warn(warnings, "No non-loopback network interfaces were found.".to_owned());
        }
        if unknown > 0 {
            let mut notice: String = String::new();
            push_decimal(&mut notice, unknown);
            notice.append(
                " network interface identity reading(s) were unavailable or changed during collection; their rates are unavailable.",
            );
            warn(warnings, notice);
        }
        if stateless > 0 {
            let mut notice: String = String::new();
            push_decimal(&mut notice, stateless);
            notice.append(
                " network interface status reading(s) were unavailable or unknown; their status is unavailable.",
            );
            warn(warnings, notice);
        }
        assert(views(warnings@) =~= start + readings.notices());
        self.previous_networks = baselines;
        self.previous_network_time = Some(readings.at);
        networks
    }
}

// ---------------------------------------------------------------------------
// Laws
// ---------------------------------------------------------------------------

proof fn lemma_baselines(
    counters: Seq<(Seq<char>, Counters)>,
    ids: NetworkIdentities,
    name: Seq<char>,
)
    requires
        in_order(counters),
    ensures
        in_order(network_baselines(counters, ids)),
        lookup(network_baselines(counters, ids), name) == match (
            lookup(counters, name),
            ids.of(name),
        ) {
            (Some(current), Some(index)) => Some(
                NetworkBaseline { ifindex: index as u32, counters: current },
            ),
            _ => None,
        },
    decreases counters.len(),
{
    if counters.len() > 0 {
        let rest = counters.drop_last();
        let (last, current) = counters.last();
        lemma_lookup_last(counters, name);
        lemma_baselines(rest, ids, name);
        if let Some(index) = ids.of(last) {
            let baseline = NetworkBaseline { ifindex: index as u32, counters: current };
            lemma_inserted_lookup(network_baselines(rest, ids), last, baseline, name);
            lemma_inserted_in_order(network_baselines(rest, ids), last, baseline);
        }
    }
}

/// The counters that the rates of an interface in the second of two samples start
/// from: those of the first, where the interface was known in both and was the same.
pub open spec fn shared_start(
    first: NetworkReadings,
    second: NetworkReadings,
    name: Seq<char>,
) -> Option<Counters> {
    match (first.counters(), first.ids().of(name), second.ids().of(name)) {
        (Some(counters), Some(index), Some(other)) => if index == other {
            lookup(counters, name)
        } else {
            None
        },
        _ => None,
    }
}

/// Between two samples, the rates of an interface come from its own counters in both
/// and the time between them. An interface that took the place of another, or that
/// could not be told from one, has no rates.
pub proof fn lemma_rates_are_of_one_interface(
    first: NetworkReadings,
    second: NetworkReadings,
    i: int,
)
    requires
        second.counters() is Some,
        0 <= i < second.counters()->0.len(),
    ensures
        second.networks(first.baselines(), first.time())[i] == ({
            let (name, current) = second.counters()->0[i];
            network_of(
                name,
                current,
                shared_start(first, second, name),
                seconds_since(first.time(), second.at),
                interface_up(interface_named(views(second.interfaces@), name)),
            )
        }),
{
    let (name, current) = second.counters()->0[i];
    if let Some(counters) = first.counters() {
        lemma_counters_in_order(lines(first.dev.text->Ok_0@));
        lemma_baselines(counters, first.ids(), name);
    }
    assert(network_start(first.baselines(), name, second.ids().of(name)) == shared_start(
        first,
        second,
        name,
    ));
}

/// What a sample says of an interface: the counters just read, and rates exactly where the
/// last sample has recorded the interface under the index that it has before and behind the
/// counters, time has passed, and the counter has not moved back. Whether it is up has no
/// part in that.
pub proof fn lemma_interface_is_measured(
    readings: NetworkReadings,
    previous: Seq<(Seq<char>, NetworkBaseline)>,
    previous_time: Option<u64>,
    i: int,
)
    requires
        readings.counters() is Some,
        0 <= i < readings.counters()->0.len(),
    ensures
        ({
            let (name, current) = readings.counters()->0[i];
            let network = readings.networks(previous, previous_time)[i];
            let start = network_start(previous, name, readings.ids().of(name));
            &&& network.name == name
            &&& network.total_received_bytes == current.first
            &&& network.total_transmitted_bytes == current.second
            &&& network.received_bytes_per_sec is Some <==> is_measured(
                start,
                current,
                false,
                previous_time,
                readings.at,
            )
            &&& network.transmitted_bytes_per_sec is Some <==> is_measured(
                start,
                current,
                true,
                previous_time,
                readings.at,
            )
        }),
{
    let (name, current) = readings.counters()->0[i];
    let start = network_start(previous, name, readings.ids().of(name));
    lemma_measured(start, current, false, previous_time, readings.at);
    lemma_measured(start, current, true, previous_time, readings.at);
}

/// In the second of two samples an interface has rates exactly where it was known in both
/// and was the same, time has passed, and the counter has not moved back.
pub proof fn lemma_interface_is_measured_between(
    first: NetworkReadings,
    second: NetworkReadings,
    i: int,
)
    requires
        second.counters() is Some,
        0 <= i < second.counters()->0.len(),
    ensures
        ({
            let (name, current) = second.counters()->0[i];
            let network = second.networks(first.baselines(), first.time())[i];
            let start = shared_start(first, second, name);
            &&& network.received_bytes_per_sec is Some <==> is_measured(
                start,
                current,
                false,
                first.time(),
                second.at,
            )
            &&& network.transmitted_bytes_per_sec is Some <==> is_measured(
                start,
                current,
                true,
                first.time(),
                second.at,
            )
        }),
{
    let (name, current) = second.counters()->0[i];
    let start = shared_start(first, second, name);
    lemma_rates_are_of_one_interface(first, second, i);
    lemma_measured(start, current, false, first.time(), second.at);
    lemma_measured(start, current, true, first.time(), second.at);
}

/// Where the counters could not be read there are no interfaces, and the next sample has no
/// rates. An interface whose index was missing or changed has none in the next sample
/// either.
pub proof fn lemma_unknown_interfaces(first: NetworkReadings, second: NetworkReadings, i: int)
    requires
        second.counters() is Some,
        0 <= i < second.counters()->0.len(),
        first.dev.text is Err || first.ids().of(second.counters()->0[i].0) is None,
    ensures
        second.networks(first.baselines(), first.time())[i].received_bytes_per_sec is None,
        second.networks(first.baselines(), first.time())[i].transmitted_bytes_per_sec is None,
        first.dev.text is Err ==> forall|
            previous: Seq<(Seq<char>, NetworkBaseline)>,
            previous_time: Option<u64>,
        | (#[trigger] first.networks(previous, previous_time)).len() == 0,
{
    lemma_interface_is_measured_between(first, second, i);
}

/// The interfaces of a sample stand in the order of their names, each once.
pub proof fn lemma_interfaces_in_order(
    readings: NetworkReadings,
    previous: Seq<(Seq<char>, NetworkBaseline)>,
    previous_time: Option<u64>,
    i: int,
    j: int,
)
    requires
        0 <= i < j < readings.networks(previous, previous_time).len(),
    ensures
        text_less(
            readings.networks(previous, previous_time)[i].name,
            readings.networks(previous, previous_time)[j].name,
        ),
{
    lemma_counters_in_order(lines(readings.dev.text->Ok_0@));
    let counters = readings.counters()->0;
    assert(text_less(counters[i].0, counters[j].0));
}

/// Whether a character is a hexadecimal digit.
pub open spec fn is_hex(c: char) -> bool {
    '0' <= c <= '9' || 'a' <= c <= 'f' || 'A' <= c <= 'F'
}

/// Whether a character is a hexadecimal digit whose lowest bit is set.
pub open spec fn is_odd_hex(c: char) -> bool {
    ||| c == '1' || c == '3' || c == '5' || c == '7' || c == '9'
    ||| c == 'b' || c == 'd' || c == 'f'
    ||| c == 'B' || c == 'D' || c == 'F'
}

/// Whether a text is what the flags of an interface look like: `0x` and one to eight
/// hexadecimal digits.
pub open spec fn writes_flags(s: Seq<char>) -> bool {
    &&& 3 <= s.len() <= 10
    &&& s[0] == '0' && s[1] == 'x'
    &&& forall|i: int| 2 <= i < s.len() ==> is_hex(#[trigger] s[i])
}

/// Where the flags of an interface can be read, it is up exactly where their lowest bit is
/// set, which is that of the last digit, whatever the others are and whatever else is said
/// of its state.
pub proof fn lemma_lowest_bit_says_up(interface: InterfaceView)
    requires
        interface.flags is Some,
        writes_flags(trimmed(interface.flags->0)),
    ensures
        interface_up(interface) == Some(is_odd_hex(trimmed(interface.flags->0).last())),
{
    let inner = trimmed(interface.flags->0);
    let digits = inner.skip(2);
    assert(digits.len() >= 2 ==> is_hex(inner[3]));
    assert(is_hex(inner[2]));
    assert(without_prefix(inner) == without_prefix(digits));
    assert(without_prefix(digits) == digits);
    assert(all_hex_digits(digits)) by {
        assert forall|i: int| 0 <= i < digits.len() implies hex_digit(#[trigger] digits[i])
            is Some by {
            assert(is_hex(inner[i + 2]));
        }
    }
    lemma_hex_value_bound(digits);
    assert(digits.last() == inner.last());
    assert(is_hex(inner.last()));
    let before = hex_value(digits.drop_last());
    assert((before * 16 + hex_digit(digits.last())->0) % 2 == hex_digit(digits.last())->0 % 2);
}

/// Of two interfaces whose flags can be read and end in the same digit, either both are up
/// or neither is.
pub proof fn lemma_other_bits_do_not_matter(a: InterfaceView, b: InterfaceView)
    requires
        a.flags is Some,
        b.flags is Some,
        writes_flags(trimmed(a.flags->0)),
        writes_flags(trimmed(b.flags->0)),
        trimmed(a.flags->0).last() == trimmed(b.flags->0).last(),
    ensures
        interface_up(a) == interface_up(b),
        interface_up(a) is Some,
{
    lemma_lowest_bit_says_up(a);
    lemma_lowest_bit_says_up(b);
}

/// Without flags, an interface is up or down where its operational state says so.
pub proof fn lemma_state_says_up(interface: InterfaceView)
    requires
        interface.flags is None,
    ensures
        interface.operstate is None ==> interface_up(interface) is None,
        interface.operstate matches Some(text) ==> {
            &&& trimmed(text) == "up"@ ==> interface_up(interface) == Some(true)
            &&& trimmed(text) == "down"@ || trimmed(text) == "lowerlayerdown"@ ==> interface_up(
                interface,
            ) == Some(false)
            &&& interface_up(interface) is Some ==> trimmed(text) == "up"@ || trimmed(text)
                == "down"@ || trimmed(text) == "lowerlayerdown"@
        },
{
    reveal_strlit("up");
    reveal_strlit("down");
    reveal_strlit("lowerlayerdown");
    assert("up"@.len() != "down"@.len());
    assert("up"@.len() != "lowerlayerdown"@.len());
}

/// The rates of an interface in the second of two samples are what it has received and
/// transmitted since the first, per second and but for rounding; and it is up where its own
/// files say so.
pub proof fn lemma_interface_rates_are_what_moved_on(
    first: NetworkReadings,
    second: NetworkReadings,
    i: int,
)
    requires
        second.counters() is Some,
        0 <= i < second.counters()->0.len(),
    ensures
        ({
            let (name, current) = second.counters()->0[i];
            let network = second.networks(first.baselines(), first.time())[i];
            let passed = (second.at - first.at) as nat;
            &&& network.is_up == interface_up(interface_named(views(second.interfaces@), name))
            &&& network.received_bytes_per_sec matches Some(rate) ==> {
                &&& first.at < second.at
                &&& lookup(first.counters()->0, name) is Some
                &&& is_rate(
                    rate,
                    (network.total_received_bytes - lookup(
                        first.counters()->0,
                        name,
                    )->0.first) as nat,
                    passed,
                )
            }
            &&& network.transmitted_bytes_per_sec matches Some(rate) ==> {
                &&& first.at < second.at
                &&& lookup(first.counters()->0, name) is Some
                &&& is_rate(
                    rate,
                    (network.total_transmitted_bytes - lookup(
                        first.counters()->0,
                        name,
                    )->0.second) as nat,
                    passed,
                )
            }
        }),
{
    let (name, current) = second.counters()->0[i];
    let network = second.networks(first.baselines(), first.time())[i];
    lemma_rates_are_of_one_interface(first, second, i);
    lemma_interface_is_measured_between(first, second, i);
    if network.received_bytes_per_sec is Some {
        let start = lookup(first.counters()->0, name)->0;
        lemma_rate_is_what_moved_on(start.first, current.first, first.at, second.at);
    }
    if network.transmitted_bytes_per_sec is Some {
        let start = lookup(first.counters()->0, name)->0;
        lemma_rate_is_what_moved_on(start.second, current.second, first.at, second.at);
    }
}

/// An interface is known by the number above zero that its file gives both before and behind
/// the counters, and by nothing else.
pub proof fn lemma_interface_is_known(ids: NetworkIdentities, name: Seq<char>, number: nat)
    requires
        0 < number <= u32::MAX,
    ensures
        ({
            let behind = interface_named(ids.interfaces, name).ifindex;
            let before = identity_text(ids.before, name);
            &&& ids.of(name) == Some(number) <==> {
                &&& before is Some && unsigned(trimmed(before->0), u32::MAX as nat) == Some(number)
                &&& behind is Some && unsigned(trimmed(behind->0), u32::MAX as nat) == Some(number)
            }
            &&& ids.of(name) != Some(0nat)
        }),
{
}

/// The files of an interface are those of the first that has its name.
pub proof fn lemma_interface_named(list: Seq<InterfaceView>, name: Seq<char>, k: int)
    requires
        0 <= k < list.len(),
        list[k].name == name,
        forall|i: int| 0 <= i < k ==> (#[trigger] list[i]).name != name,
    ensures
        interface_named(list, name) == list[k],
    decreases k,
{
    if k > 0 {
        let rest = list.skip(1);
        assert(list[0].name != name);
        assert forall|i: int| 0 <= i < k - 1 implies (#[trigger] rest[i]).name != name by {
            assert(list[i + 1].name != name);
        }
        lemma_interface_named(rest, name, k - 1);
    }
}

// ---------------------------------------------------------------------------
// What is said of interfaces
// ---------------------------------------------------------------------------

/// Each interface without an identity counts once, and so does each whose state is unknown; no
/// other does.
pub proof fn lemma_unknown_interfaces_are_counted(
    counters: Seq<(Seq<char>, Counters)>,
    name: Seq<char>,
    counts: Counters,
    ids: NetworkIdentities,
    interfaces: Seq<InterfaceView>,
)
    ensures
        ({
            let more = counters.push((name, counts));
            let up = interface_up(interface_named(interfaces, name));
            &&& unknown_networks(Seq::empty(), ids) == 0
            &&& unknown_states(Seq::empty(), interfaces) == 0
            &&& ids.of(name) is None ==> unknown_networks(more, ids) == unknown_networks(
                counters,
                ids,
            ) + 1
            &&& ids.of(name) is Some ==> unknown_networks(more, ids) == unknown_networks(
                counters,
                ids,
            )
            &&& up is None ==> unknown_states(more, interfaces) == unknown_states(
                counters,
                interfaces,
            ) + 1
            &&& up is Some ==> unknown_states(more, interfaces) == unknown_states(
                counters,
                interfaces,
            )
        }),
{
    assert(counters.push((name, counts)).drop_last() =~= counters);
}

/// Nothing is said where there are interfaces, all are known and so are their states. Otherwise
/// each of the three is told of once, with how many they are.
pub proof fn lemma_what_is_said_of_interfaces(count: nat, unknown: nat, stateless: nat)
    ensures
        ({
            let all = network_notices(count, unknown, stateless);
            &&& all.len() == (if count == 0 {
                1nat
            } else {
                0
            }) + (if unknown > 0 {
                1nat
            } else {
                0
            }) + (if stateless > 0 {
                1nat
            } else {
                0
            })
            &&& count == 0 ==> all[0] == "No non-loopback network interfaces were found."@
            &&& unknown > 0 ==> begins(
                all[if count == 0 {
                    1int
                } else {
                    0
                }],
                decimal(unknown),
            )
            &&& stateless > 0 ==> begins(all.last(), decimal(stateless))
        }),
{
    let all = network_notices(count, unknown, stateless);
    if unknown > 0 {
        let text = all[if count == 0 {
            1int
        } else {
            0
        }];
        assert(text.take(decimal(unknown).len() as int) =~= decimal(unknown));
    }
    if stateless > 0 {
        assert(all.last().take(decimal(stateless).len() as int) =~= decimal(stateless));
    }
}

} // verus!
