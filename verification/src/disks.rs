//! Disks: which of them are whole and count their own I/O, and the rates of it.

use crate::accuracy::is_rate;
use crate::counters::{
    counter_rate, disk_counters, disk_sequence, generation, lemma_counters_in_order,
    lemma_rate_is_known, lemma_rate_is_what_moved_on, parse_diskstats, rate_between, Counters,
};
use crate::double::Double;
use crate::metrics::Collector;
use crate::readings::{
    elapsed_since, find_identity, identities, identity_text, read_notice, read_required,
    seconds_since, warn, Identity, Reading,
};
use crate::table::{
    in_order, inserted, lemma_inserted_in_order, lemma_inserted_lookup, lemma_lookup_finds,
    lemma_lookup_last, lookup, text_less, Named, Table,
};
use crate::text::{
    begins, characters, decimal, lemma_views_push, lines, push_decimal, spells, starts, trim,
    trimmed, unsigned, views,
};
use vstd::prelude::*;

verus! {

/// A disk.
#[derive(Clone, Debug)]
pub struct Disk {
    pub name: String,
    pub read_bytes_per_sec: Option<Double>,
    pub write_bytes_per_sec: Option<Double>,
    pub total_read_bytes: u64,
    pub total_write_bytes: u64,
}

#[verifier::ext_equal]
pub struct DiskView {
    pub name: Seq<char>,
    pub read_bytes_per_sec: Option<Double>,
    pub write_bytes_per_sec: Option<Double>,
    pub total_read_bytes: u64,
    pub total_write_bytes: u64,
}

impl View for Disk {
    type V = DiskView;

    open spec fn view(&self) -> DiskView {
        DiskView {
            name: self.name@,
            read_bytes_per_sec: self.read_bytes_per_sec,
            write_bytes_per_sec: self.write_bytes_per_sec,
            total_read_bytes: self.total_read_bytes,
            total_write_bytes: self.total_write_bytes,
        }
    }
}

// ---------------------------------------------------------------------------
// Whole disks
// ---------------------------------------------------------------------------

/// What a file that may be missing says.
#[derive(Clone, Debug)]
pub enum Flag {
    Text(String),
    Missing,
    Failed(String),
}

/// The disks below a stacked device.
#[derive(Clone, Debug)]
pub enum Slaves {
    Listed { any: bool },
    Missing,
    Failed(String),
}

/// An entry among the block devices.
#[derive(Clone, Debug)]
pub struct BlockDevice {
    pub name: String,
    pub hidden: Flag,
    pub slaves: Slaves,
}

#[verifier::ext_equal]
pub enum FlagView {
    Text(Seq<char>),
    Missing,
    Failed(Seq<char>),
}

#[verifier::ext_equal]
pub enum SlavesView {
    Listed { any: bool },
    Missing,
    Failed(Seq<char>),
}

#[verifier::ext_equal]
pub struct BlockDeviceView {
    pub name: Seq<char>,
    pub hidden: FlagView,
    pub slaves: SlavesView,
}

impl View for BlockDevice {
    type V = BlockDeviceView;

    open spec fn view(&self) -> BlockDeviceView {
        BlockDeviceView {
            name: self.name@,
            hidden: match self.hidden {
                Flag::Text(text) => FlagView::Text(text@),
                Flag::Missing => FlagView::Missing,
                Flag::Failed(error) => FlagView::Failed(error@),
            },
            slaves: match self.slaves {
                Slaves::Listed { any } => SlavesView::Listed { any },
                Slaves::Missing => SlavesView::Missing,
                Slaves::Failed(error) => SlavesView::Failed(error@),
            },
        }
    }
}

/// The block devices, or how listing them failed.
pub open spec fn listing(devices: Result<Vec<BlockDevice>, String>) -> Result<
    Seq<BlockDeviceView>,
    Seq<char>,
> {
    match devices {
        Ok(list) => Ok(views(list@)),
        Err(error) => Err(error@),
    }
}

/// Whether a device keeps what it holds in memory, or in a file of another one.
pub open spec fn is_virtual_disk(name: Seq<char>) -> bool {
    begins(name, "loop"@) || begins(name, "ram"@) || begins(name, "zram"@)
}

/// Whether a device is visible, as far as that is certain.
pub open spec fn is_visible(device: BlockDeviceView) -> bool {
    match device.hidden {
        FlagView::Text(text) => trimmed(text) == "0"@,
        FlagView::Missing => true,
        FlagView::Failed(_) => false,
    }
}

/// Whether the I/O of a device is its own: it is not stacked on other disks that
/// count the same I/O, as far as that is certain.
pub open spec fn is_leaf(device: BlockDeviceView) -> bool {
    &&& !is_virtual_disk(device.name)
    &&& is_visible(device)
    &&& match device.slaves {
        SlavesView::Listed { any } => !any,
        SlavesView::Missing => true,
        SlavesView::Failed(_) => false,
    }
}

/// The notice about a device of which something is uncertain.
pub open spec fn leaf_notice(device: BlockDeviceView) -> Seq<Seq<char>> {
    let visibility = "Cannot inspect "@ + device.name + " disk visibility: "@;
    if is_virtual_disk(device.name) {
        Seq::empty()
    } else {
        match (device.hidden, device.slaves) {
            (FlagView::Failed(error), _) => seq![visibility + error],
            (FlagView::Text(text), _) if trimmed(text) != "0"@ => if trimmed(text) == "1"@ {
                Seq::empty()
            } else {
                seq![visibility + "invalid hidden flag."@]
            },
            (_, SlavesView::Failed(error)) => seq![
                "Cannot inspect "@ + device.name + " disk topology: "@ + error,
            ],
            _ => Seq::empty(),
        }
    }
}

/// The names of the leaf devices.
pub open spec fn leaf_names(devices: Seq<BlockDeviceView>) -> Seq<(Seq<char>, ())>
    decreases devices.len(),
{
    if devices.len() == 0 {
        Seq::empty()
    } else if is_leaf(devices.last()) {
        inserted(leaf_names(devices.drop_last()), devices.last().name, ())
    } else {
        leaf_names(devices.drop_last())
    }
}

/// The notices about the devices.
pub open spec fn leaf_notices(devices: Seq<BlockDeviceView>) -> Seq<Seq<char>>
    decreases devices.len(),
{
    if devices.len() == 0 {
        Seq::empty()
    } else {
        leaf_notices(devices.drop_last()) + leaf_notice(devices.last())
    }
}

/// The notices that listing the devices gives.
pub open spec fn listing_notices(
    path: Seq<char>,
    devices: Result<Seq<BlockDeviceView>, Seq<char>>,
) -> Seq<Seq<char>> {
    match devices {
        Ok(list) => leaf_notices(list),
        Err(error) => seq!["Cannot discover whole disks in "@ + path + ": "@ + error],
    }
}

fn inspect_device(device: &BlockDevice, warnings: &mut Vec<String>) -> (result: bool)
    ensures
        result == is_leaf(device@),
        views(final(warnings)@) == views(old(warnings)@) + leaf_notice(device@),
{
    let ghost before = views(warnings@);
    let name: Vec<char> = characters(device.name.as_str());
    if starts(name.as_slice(), "loop") || starts(name.as_slice(), "ram") || starts(
        name.as_slice(),
        "zram",
    ) {
        assert(views(warnings@) =~= before + leaf_notice(device@));
        return false;
    }
    proof {
        reveal_strlit("0");
        reveal_strlit("1");
        assert("0"@[0] == '0');
        assert("1"@[0] == '1');
    }
    match &device.hidden {
        Flag::Text(text) => {
            let all: Vec<char> = characters(text.as_str());
            let inner: &[char] = trim(all.as_slice());
            if !spells(inner, "0") {
                if !spells(inner, "1") {
                    let mut notice: String = "Cannot inspect ".to_owned();
                    notice.append(device.name.as_str());
                    notice.append(" disk visibility: ");
                    notice.append("invalid hidden flag.");
                    warn(warnings, notice);
                }
                assert(views(warnings@) =~= before + leaf_notice(device@));
                return false;
            }
        },
        Flag::Missing => {},
        Flag::Failed(error) => {
            let mut notice: String = "Cannot inspect ".to_owned();
            notice.append(device.name.as_str());
            notice.append(" disk visibility: ");
            notice.append(error.as_str());
            warn(warnings, notice);
            assert(views(warnings@) =~= before + leaf_notice(device@));
            return false;
        },
    }
    match &device.slaves {
        Slaves::Listed { any } => {
            assert(views(warnings@) =~= before + leaf_notice(device@));
            !*any
        },
        Slaves::Missing => {
            assert(views(warnings@) =~= before + leaf_notice(device@));
            true
        },
        Slaves::Failed(error) => {
            let mut notice: String = "Cannot inspect ".to_owned();
            notice.append(device.name.as_str());
            notice.append(" disk topology: ");
            notice.append(error.as_str());
            warn(warnings, notice);
            assert(views(warnings@) =~= before + leaf_notice(device@));
            false
        },
    }
}

/// The whole disks whose I/O no other one counts too, by name. Partitions are no
/// entries of the listing.
pub fn leaf_block_devices(
    path: &str,
    devices: &Result<Vec<BlockDevice>, String>,
    warnings: &mut Vec<String>,
) -> (result: Option<Table<()>>)
    ensures
        match (result, listing(*devices)) {
            (Some(names), Ok(list)) => names@ == leaf_names(list),
            (None, Err(_)) => true,
            _ => false,
        },
        views(final(warnings)@) == views(old(warnings)@) + listing_notices(path@, listing(*devices)),
{
    let ghost before = views(warnings@);
    match devices {
        Err(error) => {
            let mut notice: String = "Cannot discover whole disks in ".to_owned();
            notice.append(path);
            notice.append(": ");
            notice.append(error.as_str());
            warn(warnings, notice);
            assert(views(warnings@) =~= before + listing_notices(path@, listing(*devices)));
            None
        },
        Ok(list) => {
            let ghost all = views(list@);
            let mut names: Table<()> = Table::new();
            let mut i: usize = 0;
            assert(before + leaf_notices(all.take(0)) =~= before);
            while i < list.len()
                invariant
                    i <= list@.len(),
                    all == views(list@),
                    names@ == leaf_names(all.take(i as int)),
                    views(warnings@) == before + leaf_notices(all.take(i as int)),
                decreases list@.len() - i,
            {
                assert(all[i as int] == list@[i as int]@);
                assert(all.take(i + 1).drop_last() =~= all.take(i as int));
                if inspect_device(&list[i], warnings) {
                    names.insert(list[i].name.clone(), ());
                }
                i += 1;
                assert(views(warnings@) =~= before + leaf_notices(all.take(i as int)));
            }
            assert(all.take(i as int) =~= all);
            Some(names)
        },
    }
}

// ---------------------------------------------------------------------------
// Disks
// ---------------------------------------------------------------------------

/// The counters of a disk at the last sample, and which disk it was.
#[derive(Clone, Copy, Debug, PartialEq, Eq, Structural)]
pub struct DiskBaseline {
    pub diskseq: u64,
    pub counters: Counters,
}

/// What there is to read of the disks, in the order in which it is read.
#[derive(Debug)]
pub struct DiskReadings {
    /// The generation of each disk before the counters.
    pub before: Vec<Identity>,
    pub diskstats: Reading,
    /// When the counters were read, in nanoseconds.
    pub at: u64,
    /// Where the devices were listed.
    pub path: String,
    pub devices: Result<Vec<BlockDevice>, String>,
    /// The generation of each disk behind the counters.
    pub after: Vec<Identity>,
}

/// The generation of a disk, where it was the same before and behind the counters.
pub open spec fn steady_generation(
    before: Seq<(Seq<char>, Option<Seq<char>>)>,
    after: Seq<(Seq<char>, Option<Seq<char>>)>,
    name: Seq<char>,
) -> Option<nat> {
    let behind = generation(identity_text(after, name));
    if behind == generation(identity_text(before, name)) {
        behind
    } else {
        None
    }
}

/// The counters of the leaf devices.
pub open spec fn selected(
    counters: Seq<(Seq<char>, Counters)>,
    names: Seq<(Seq<char>, ())>,
) -> Seq<(Seq<char>, Counters)>
    decreases counters.len(),
{
    if counters.len() == 0 {
        Seq::empty()
    } else if lookup(names, counters.last().0) is Some {
        selected(counters.drop_last(), names).push(counters.last())
    } else {
        selected(counters.drop_last(), names)
    }
}

/// The counters that a rate can start from: those of the same disk.
pub open spec fn disk_start(
    previous: Seq<(Seq<char>, DiskBaseline)>,
    name: Seq<char>,
    identity: Option<nat>,
) -> Option<Counters> {
    match (lookup(previous, name), identity) {
        (Some(baseline), Some(sequence)) => if baseline.diskseq == sequence {
            Some(baseline.counters)
        } else {
            None
        },
        _ => None,
    }
}

/// The rate of a counter from an earlier reading on.
pub open spec fn rate_from(
    start: Option<Counters>,
    current: Counters,
    second: bool,
    elapsed: Option<Double>,
) -> Option<Double> {
    match start {
        Some(counters) => if second {
            rate_between(counters.second, current.second, elapsed)
        } else {
            rate_between(counters.first, current.first, elapsed)
        },
        None => None,
    }
}

/// What a sample says of a disk.
pub open spec fn disk_of(
    name: Seq<char>,
    current: Counters,
    start: Option<Counters>,
    elapsed: Option<Double>,
) -> DiskView {
    DiskView {
        name,
        read_bytes_per_sec: rate_from(start, current, false, elapsed),
        write_bytes_per_sec: rate_from(start, current, true, elapsed),
        total_read_bytes: current.first,
        total_write_bytes: current.second,
    }
}

/// The identities of disks, by name.
pub struct DiskIdentities {
    pub before: Seq<(Seq<char>, Option<Seq<char>>)>,
    pub after: Seq<(Seq<char>, Option<Seq<char>>)>,
}

impl DiskIdentities {
    pub open spec fn of(self, name: Seq<char>) -> Option<nat> {
        steady_generation(self.before, self.after, name)
    }
}

/// What a sample says of the disks.
pub open spec fn disks_of(
    counters: Seq<(Seq<char>, Counters)>,
    previous: Seq<(Seq<char>, DiskBaseline)>,
    ids: DiskIdentities,
    elapsed: Option<Double>,
) -> Seq<DiskView> {
    counters.map_values(
        |one: (Seq<char>, Counters)|
            disk_of(one.0, one.1, disk_start(previous, one.0, ids.of(one.0)), elapsed),
    )
}

/// The counters that the next sample starts from: of the disks that are known.
pub open spec fn disk_baselines(
    counters: Seq<(Seq<char>, Counters)>,
    ids: DiskIdentities,
) -> Seq<(Seq<char>, DiskBaseline)>
    decreases counters.len(),
{
    if counters.len() == 0 {
        Seq::empty()
    } else {
        let before = disk_baselines(counters.drop_last(), ids);
        let (name, current) = counters.last();
        match ids.of(name) {
            Some(sequence) => inserted(
                before,
                name,
                DiskBaseline { diskseq: sequence as u64, counters: current },
            ),
            None => before,
        }
    }
}

/// How many of the disks are not known.
pub open spec fn unknown_disks(
    counters: Seq<(Seq<char>, Counters)>,
    ids: DiskIdentities,
) -> nat
    decreases counters.len(),
{
    if counters.len() == 0 {
        0
    } else {
        unknown_disks(counters.drop_last(), ids) + if ids.of(counters.last().0) is None {
            1nat
        } else {
            0nat
        }
    }
}

/// The notices about the disks of a sample.
pub open spec fn disk_notices(count: nat, unknown: nat) -> Seq<Seq<char>> {
    let none = if count == 0 {
        seq!["No readable whole-disk I/O counters were found."@]
    } else {
        Seq::empty()
    };
    if unknown > 0 {
        none.push(
            decimal(unknown)
                + " disk identity reading(s) were unavailable or changed during collection; their rates are unavailable."@,
        )
    } else {
        none
    }
}

impl DiskReadings {
    pub open spec fn ids(self) -> DiskIdentities {
        DiskIdentities { before: identities(self.before@), after: identities(self.after@) }
    }

    /// The counters of the disks, where both they and the devices could be read.
    pub open spec fn counters(self) -> Option<Seq<(Seq<char>, Counters)>> {
        match (self.diskstats.text, listing(self.devices)) {
            (Ok(text), Ok(devices)) => Some(
                selected(disk_counters(lines(text@)), leaf_names(devices)),
            ),
            _ => None,
        }
    }

    /// What a sample says of the disks.
    pub open spec fn disks(
        self,
        previous: Seq<(Seq<char>, DiskBaseline)>,
        previous_time: Option<u64>,
    ) -> Seq<DiskView> {
        match self.counters() {
            Some(counters) => disks_of(
                counters,
                previous,
                self.ids(),
                seconds_since(previous_time, self.at),
            ),
            None => Seq::empty(),
        }
    }

    /// What the next sample starts from.
    pub open spec fn baselines(self) -> Seq<(Seq<char>, DiskBaseline)> {
        match self.counters() {
            Some(counters) => disk_baselines(counters, self.ids()),
            None => Seq::empty(),
        }
    }

    pub open spec fn time(self) -> Option<u64> {
        match self.counters() {
            Some(_) => Some(self.at),
            None => None,
        }
    }

    /// The notices of a sample about the disks.
    pub open spec fn notices(self) -> Seq<Seq<char>> {
        match self.diskstats.text {
            Err(_) => read_notice(self.diskstats@),
            Ok(_) => listing_notices(self.path@, listing(self.devices)) + match self.counters() {
                Some(counters) => disk_notices(
                    counters.len(),
                    unknown_disks(counters, self.ids()),
                ),
                None => Seq::empty(),
            },
        }
    }
}

fn steady_sequence(readings: &DiskReadings, name: &str) -> (result: Option<u64>)
    ensures
        result matches Some(sequence) ==> steady_generation(
            identities(readings.before@),
            identities(readings.after@),
            name@,
        ) == Some(sequence as nat),
        result is None ==> steady_generation(
            identities(readings.before@),
            identities(readings.after@),
            name@,
        ) is None,
{
    let behind: Option<u64> = match find_identity(&readings.after, name) {
        Some(one) => disk_sequence(&one.text),
        None => None,
    };
    let ahead: Option<u64> = match find_identity(&readings.before, name) {
        Some(one) => disk_sequence(&one.text),
        None => None,
    };
    match (behind, ahead) {
        (Some(sequence), Some(other)) => if sequence == other {
            Some(sequence)
        } else {
            None
        },
        _ => None,
    }
}

impl Collector {
    /// The disks of a sample. A disk has rates where the one before it under its
    /// name was the same disk, and no other took its place while the counters
    /// were read.
    pub fn sample_disks(&mut self, readings: &DiskReadings, warnings: &mut Vec<String>) -> (result:
        Vec<Disk>)
        ensures
            final(self).previous_cpu == old(self).previous_cpu,
            final(self).previous_networks == old(self).previous_networks,
            final(self).previous_network_time == old(self).previous_network_time,
            final(self).hostname == old(self).hostname,
            final(self).kernel == old(self).kernel,
            views(result@) == readings.disks(
                old(self).previous_disks@,
                old(self).previous_disk_time,
            ),
            final(self).previous_disks@ == readings.baselines(),
            final(self).previous_disk_time == readings.time(),
            views(final(warnings)@) == views(old(warnings)@) + readings.notices(),
    {
        let ghost start = views(warnings@);
        let text: &String = match read_required(&readings.diskstats, warnings) {
            Some(text) => text,
            None => {
                self.previous_disks = Table::new();
                self.previous_disk_time = None;
                let none: Vec<Disk> = Vec::new();
                assert(views(none@) =~= Seq::<DiskView>::empty());
                return none;
            },
        };
        assert(views(warnings@) =~= start);
        let elapsed: Option<Double> = elapsed_since(self.previous_disk_time, readings.at);
        let names: Table<()> = match leaf_block_devices(
            readings.path.as_str(),
            &readings.devices,
            warnings,
        ) {
            Some(names) => names,
            None => {
                self.previous_disks = Table::new();
                self.previous_disk_time = None;
                let none: Vec<Disk> = Vec::new();
                assert(views(none@) =~= Seq::<DiskView>::empty());
                assert(views(warnings@) =~= start + readings.notices());
                return none;
            },
        };
        let found: Table<Counters> = parse_diskstats(text.as_str());
        let ghost all = found@;
        let ghost ids = readings.ids();
        let ghost previous = self.previous_disks@;
        let mut baselines: Table<DiskBaseline> = Table::new();
        let mut disks: Vec<Disk> = Vec::new();
        let mut unknown: u64 = 0;
        let mut i: usize = 0;
        proof {
            assert(all.take(0) =~= Seq::<(Seq<char>, Counters)>::empty());
            assert(views(disks@) =~= disks_of(
                selected(all.take(0), names@),
                previous,
                ids,
                elapsed,
            ));
        }
        while i < found.entries.len()
            invariant
                i <= found.entries@.len(),
                all == found@,
                all.len() == found.entries@.len(),
                *self == *old(self),
                previous == self.previous_disks@,
                ids == readings.ids(),
                views(disks@) == disks_of(
                    selected(all.take(i as int), names@),
                    previous,
                    ids,
                    elapsed,
                ),
                baselines@ == disk_baselines(selected(all.take(i as int), names@), ids),
                unknown == unknown_disks(selected(all.take(i as int), names@), ids),
                unknown <= i,
            decreases found.entries@.len() - i,
        {
            let ghost before = selected(all.take(i as int), names@);
            let entry: &Named<Counters> = &found.entries[i];
            assert(all[i as int] == (entry.name@, entry.value));
            assert(all.take(i + 1).drop_last() =~= all.take(i as int));
            if names.contains_key(entry.name.as_str()) {
                let current: Counters = entry.value;
                assert(before.push((entry.name@, current)).drop_last() =~= before);
                let sequence: Option<u64> = steady_sequence(readings, entry.name.as_str());
                let from: Option<Counters> = match (
                    self.previous_disks.get(entry.name.as_str()),
                    sequence,
                ) {
                    (Some(baseline), Some(seq)) => if baseline.diskseq == seq {
                        Some(baseline.counters)
                    } else {
                        None
                    },
                    _ => None,
                };
                assert(from == disk_start(previous, entry.name@, ids.of(entry.name@)));
                match sequence {
                    Some(diskseq) => {
                        baselines.insert(
                            entry.name.clone(),
                            DiskBaseline { diskseq, counters: current },
                        );
                    },
                    None => {
                        unknown += 1;
                    },
                }
                let disk: Disk = Disk {
                    name: entry.name.clone(),
                    read_bytes_per_sec: match from {
                        Some(old_counters) => counter_rate(
                            old_counters.first,
                            current.first,
                            elapsed,
                        ),
                        None => None,
                    },
                    write_bytes_per_sec: match from {
                        Some(old_counters) => counter_rate(
                            old_counters.second,
                            current.second,
                            elapsed,
                        ),
                        None => None,
                    },
                    total_read_bytes: current.first,
                    total_write_bytes: current.second,
                };
                assert(disk@ =~= disk_of(entry.name@, current, from, elapsed));
                proof {
                    lemma_views_push(disks@, disk);
                }
                disks.push(disk);
                assert(views(disks@) =~= disks_of(
                    before.push((entry.name@, current)),
                    previous,
                    ids,
                    elapsed,
                ));
            }
            i += 1;
        }
        assert(all.take(i as int) =~= all);
        let ghost middle = views(warnings@);
        assert(disks@.len() == selected(all, names@).len()) by {
            assert(views(disks@).len() == disks@.len());
        }
        if disks.len() == 0 {
            warn(warnings, "No readable whole-disk I/O counters were found.".to_owned());
        }
        if unknown > 0 {
            let mut notice: String = String::new();
            push_decimal(&mut notice, unknown);
            notice.append(
                " disk identity reading(s) were unavailable or changed during collection; their rates are unavailable.",
            );
            warn(warnings, notice);
        }
        assert(views(warnings@) =~= middle + disk_notices(
            selected(all, names@).len(),
            unknown as nat,
        ));
        assert(views(warnings@) =~= start + readings.notices());
        self.previous_disks = baselines;
        self.previous_disk_time = Some(readings.at);
        disks
    }
}

// ---------------------------------------------------------------------------
// Laws
// ---------------------------------------------------------------------------

proof fn lemma_selected(counters: Seq<(Seq<char>, Counters)>, names: Seq<(Seq<char>, ())>)
    requires
        in_order(counters),
    ensures
        in_order(selected(counters, names)),
        forall|i: int|
            0 <= i < selected(counters, names).len() ==> exists|k: int|
                0 <= k < counters.len() && #[trigger] counters[k] == #[trigger] selected(
                    counters,
                    names,
                )[i],
    decreases counters.len(),
{
    if counters.len() > 0 {
        let rest = counters.drop_last();
        let before = selected(rest, names);
        let all = selected(counters, names);
        lemma_lookup_last(counters, counters.last().0);
        lemma_selected(rest, names);
        assert forall|i: int| 0 <= i < all.len() implies exists|k: int|
            0 <= k < counters.len() && #[trigger] counters[k] == #[trigger] all[i] by {
            if i < before.len() {
                assert(all[i] == before[i]);
                let k = choose|k: int| 0 <= k < rest.len() && #[trigger] rest[k] == before[i];
                assert(counters[k] == all[i]);
            } else {
                assert(counters[counters.len() - 1] == all[i]);
            }
        }
        assert forall|i: int, j: int| 0 <= i < j < all.len() implies text_less(
            #[trigger] all[i].0,
            #[trigger] all[j].0,
        ) by {
            assert(all[i] == before[i]);
            if j < before.len() {
                assert(all[j] == before[j]);
            } else {
                let k = choose|k: int| 0 <= k < rest.len() && #[trigger] rest[k] == before[i];
                assert(text_less(counters[k].0, counters[counters.len() - 1].0));
            }
        }
    }
}

proof fn lemma_baselines(
    counters: Seq<(Seq<char>, Counters)>,
    ids: DiskIdentities,
    name: Seq<char>,
)
    requires
        in_order(counters),
    ensures
        in_order(disk_baselines(counters, ids)),
        lookup(disk_baselines(counters, ids), name) == match (
            lookup(counters, name),
            ids.of(name),
        ) {
            (Some(current), Some(sequence)) => Some(
                DiskBaseline { diskseq: sequence as u64, counters: current },
            ),
            _ => None,
        },
    decreases counters.len(),
{
    if counters.len() > 0 {
        let rest = counters.drop_last();
        let (last, current) = counters.last();
        lemma_lookup_last(counters, name);
        lemma_baselines(rest, ids, name);
        if let Some(sequence) = ids.of(last) {
            let baseline = DiskBaseline { diskseq: sequence as u64, counters: current };
            lemma_inserted_lookup(disk_baselines(rest, ids), last, baseline, name);
            lemma_inserted_in_order(disk_baselines(rest, ids), last, baseline);
        }
    }
}

/// The counters that the rates of a disk in the second of two samples start from:
/// those of the first, where the disk was known in both and was the same.
pub open spec fn shared_start(first: DiskReadings, second: DiskReadings, name: Seq<char>) -> Option<
    Counters,
> {
    match (first.counters(), first.ids().of(name), second.ids().of(name)) {
        (Some(counters), Some(sequence), Some(other)) => if sequence == other {
            lookup(counters, name)
        } else {
            None
        },
        _ => None,
    }
}

/// Between two samples, the rates of a disk come from its own counters in both and
/// the time between them. A disk that took the place of another, or that could not
/// be told from one, has no rates.
pub proof fn lemma_rates_are_of_one_disk(first: DiskReadings, second: DiskReadings, i: int)
    requires
        second.counters() is Some,
        0 <= i < second.counters()->0.len(),
    ensures
        second.disks(first.baselines(), first.time())[i] == ({
            let (name, current) = second.counters()->0[i];
            disk_of(
                name,
                current,
                shared_start(first, second, name),
                seconds_since(first.time(), second.at),
            )
        }),
{
    let (name, current) = second.counters()->0[i];
    if let Some(counters) = first.counters() {
        lemma_counters_in_order(lines(first.diskstats.text->Ok_0@));
        lemma_selected(
            disk_counters(lines(first.diskstats.text->Ok_0@)),
            leaf_names(listing(first.devices)->Ok_0),
        );
        lemma_baselines(counters, first.ids(), name);
    }
    assert(disk_start(first.baselines(), name, second.ids().of(name)) == shared_start(
        first,
        second,
        name,
    ));
}

/// Whether the rate of a counter from an earlier reading on can be told: the reading was of
/// the same device, time has passed, and the counter has not moved back.
pub open spec fn is_measured(
    start: Option<Counters>,
    current: Counters,
    second: bool,
    from: Option<u64>,
    to: u64,
) -> bool {
    &&& start is Some
    &&& from is Some && from->0 < to
    &&& if second {
        start->0.second <= current.second
    } else {
        start->0.first <= current.first
    }
}

/// There is a rate exactly where it can be told.
pub proof fn lemma_measured(
    start: Option<Counters>,
    current: Counters,
    second: bool,
    from: Option<u64>,
    to: u64,
)
    ensures
        rate_from(start, current, second, seconds_since(from, to)) is Some <==> is_measured(
            start,
            current,
            second,
            from,
            to,
        ),
{
    if let Some(counters) = start {
        lemma_rate_is_known(counters.first, current.first, from, to);
        lemma_rate_is_known(counters.second, current.second, from, to);
    }
}

/// What a sample says of a disk: the counters just read, and rates exactly where the last
/// sample has recorded the disk under the generation that it has before and behind the
/// counters, time has passed, and the counter has not moved back.
pub proof fn lemma_disk_is_measured(
    readings: DiskReadings,
    previous: Seq<(Seq<char>, DiskBaseline)>,
    previous_time: Option<u64>,
    i: int,
)
    requires
        readings.counters() is Some,
        0 <= i < readings.counters()->0.len(),
    ensures
        ({
            let (name, current) = readings.counters()->0[i];
            let disk = readings.disks(previous, previous_time)[i];
            let start = disk_start(previous, name, readings.ids().of(name));
            &&& disk.name == name
            &&& disk.total_read_bytes == current.first
            &&& disk.total_write_bytes == current.second
            &&& disk.read_bytes_per_sec is Some <==> is_measured(
                start,
                current,
                false,
                previous_time,
                readings.at,
            )
            &&& disk.write_bytes_per_sec is Some <==> is_measured(
                start,
                current,
                true,
                previous_time,
                readings.at,
            )
        }),
{
    let (name, current) = readings.counters()->0[i];
    let start = disk_start(previous, name, readings.ids().of(name));
    lemma_measured(start, current, false, previous_time, readings.at);
    lemma_measured(start, current, true, previous_time, readings.at);
}

/// In the second of two samples a disk has rates exactly where it was known in both and was
/// the same, time has passed, and the counter has not moved back.
pub proof fn lemma_disk_is_measured_between(first: DiskReadings, second: DiskReadings, i: int)
    requires
        second.counters() is Some,
        0 <= i < second.counters()->0.len(),
    ensures
        ({
            let (name, current) = second.counters()->0[i];
            let disk = second.disks(first.baselines(), first.time())[i];
            let start = shared_start(first, second, name);
            &&& disk.read_bytes_per_sec is Some <==> is_measured(
                start,
                current,
                false,
                first.time(),
                second.at,
            )
            &&& disk.write_bytes_per_sec is Some <==> is_measured(
                start,
                current,
                true,
                first.time(),
                second.at,
            )
        }),
{
    let (name, current) = second.counters()->0[i];
    let start = shared_start(first, second, name);
    lemma_rates_are_of_one_disk(first, second, i);
    lemma_measured(start, current, false, first.time(), second.at);
    lemma_measured(start, current, true, first.time(), second.at);
}

/// Where the counters or the devices could not be read there are no disks, and the next
/// sample has no rates.
pub proof fn lemma_unreadable_disks(
    first: DiskReadings,
    previous: Seq<(Seq<char>, DiskBaseline)>,
    previous_time: Option<u64>,
    second: DiskReadings,
    i: int,
)
    requires
        first.diskstats.text is Err || first.devices is Err,
        0 <= i < second.disks(first.baselines(), first.time()).len(),
    ensures
        first.disks(previous, previous_time).len() == 0,
        second.disks(first.baselines(), first.time())[i].read_bytes_per_sec is None,
        second.disks(first.baselines(), first.time())[i].write_bytes_per_sec is None,
{
    assert(first.counters() is None);
    lemma_disk_is_measured_between(first, second, i);
}

/// Whether a device of a name is among the leaf devices.
pub open spec fn has_leaf(devices: Seq<BlockDeviceView>, name: Seq<char>) -> bool {
    exists|k: int| 0 <= k < devices.len() && is_leaf(#[trigger] devices[k]) && devices[k].name == name
}

proof fn lemma_leaf_names(devices: Seq<BlockDeviceView>, name: Seq<char>)
    ensures
        in_order(leaf_names(devices)),
        lookup(leaf_names(devices), name) is Some <==> has_leaf(devices, name),
    decreases devices.len(),
{
    if devices.len() > 0 {
        let rest = devices.drop_last();
        let last = devices.last();
        lemma_leaf_names(rest, name);
        assert(devices[devices.len() - 1] == last);
        if has_leaf(rest, name) {
            let k = choose|k: int|
                0 <= k < rest.len() && is_leaf(#[trigger] rest[k]) && rest[k].name == name;
            assert(devices[k] == rest[k]);
        }
        if has_leaf(devices, name) {
            let k = choose|k: int|
                0 <= k < devices.len() && is_leaf(#[trigger] devices[k]) && devices[k].name == name;
            if k < rest.len() {
                assert(rest[k] == devices[k]);
            }
        }
        if is_leaf(last) {
            lemma_inserted_in_order(leaf_names(rest), last.name, ());
            lemma_inserted_lookup(leaf_names(rest), last.name, (), name);
        }
    }
}

proof fn lemma_selected_lookup(
    counters: Seq<(Seq<char>, Counters)>,
    names: Seq<(Seq<char>, ())>,
    name: Seq<char>,
)
    requires
        in_order(counters),
    ensures
        lookup(selected(counters, names), name) == if lookup(names, name) is Some {
            lookup(counters, name)
        } else {
            None
        },
    decreases counters.len(),
{
    if counters.len() > 0 {
        let rest = counters.drop_last();
        let before = selected(rest, names);
        lemma_lookup_last(counters, name);
        lemma_selected_lookup(rest, names, name);
        lemma_selected(counters, names);
        if lookup(names, counters.last().0) is Some {
            assert(before.push(counters.last()).drop_last() =~= before);
            lemma_lookup_last(before.push(counters.last()), name);
        }
    }
}

/// The disks of a sample stand in the order of their names, each once.
pub proof fn lemma_disks_in_order(
    readings: DiskReadings,
    previous: Seq<(Seq<char>, DiskBaseline)>,
    previous_time: Option<u64>,
    i: int,
    j: int,
)
    requires
        0 <= i < j < readings.disks(previous, previous_time).len(),
    ensures
        text_less(
            readings.disks(previous, previous_time)[i].name,
            readings.disks(previous, previous_time)[j].name,
        ),
{
    let rows = lines(readings.diskstats.text->Ok_0@);
    let names = leaf_names(listing(readings.devices)->Ok_0);
    let shown = readings.counters()->0;
    lemma_counters_in_order(rows);
    lemma_selected(disk_counters(rows), names);
    assert(text_less(shown[i].0, shown[j].0));
}

/// Whether a disk of a name is among others.
pub open spec fn lists_disk(disks: Seq<DiskView>, name: Seq<char>) -> bool {
    exists|i: int| 0 <= i < disks.len() && (#[trigger] disks[i]).name == name
}

/// The disks of a sample are those leaf devices that have counters.
pub proof fn lemma_disks_are_leaves(
    readings: DiskReadings,
    previous: Seq<(Seq<char>, DiskBaseline)>,
    previous_time: Option<u64>,
    name: Seq<char>,
)
    requires
        readings.counters() is Some,
    ensures
        lists_disk(readings.disks(previous, previous_time), name) <==> lookup(
            disk_counters(lines(readings.diskstats.text->Ok_0@)),
            name,
        ) is Some && has_leaf(listing(readings.devices)->Ok_0, name),
{
    let disks = readings.disks(previous, previous_time);
    let rows = lines(readings.diskstats.text->Ok_0@);
    let devices = listing(readings.devices)->Ok_0;
    let counters = disk_counters(rows);
    let shown = selected(counters, leaf_names(devices));
    lemma_counters_in_order(rows);
    lemma_leaf_names(devices, name);
    lemma_selected_lookup(counters, leaf_names(devices), name);
    lemma_lookup_finds(shown, name);
    assert(disks.len() == shown.len());
    if lists_disk(disks, name) {
        let i = choose|i: int| 0 <= i < disks.len() && (#[trigger] disks[i]).name == name;
        assert(shown[i].0 == name);
    }
    if exists|i: int| 0 <= i < shown.len() && (#[trigger] shown[i]).0 == name {
        let i = choose|i: int| 0 <= i < shown.len() && (#[trigger] shown[i]).0 == name;
        assert(disks[i].name == name);
    }
}

/// The rates of a disk in the second of two samples are what it has read and written since the
/// first, per second and but for rounding.
pub proof fn lemma_disk_rates_are_what_moved_on(first: DiskReadings, second: DiskReadings, i: int)
    requires
        second.counters() is Some,
        0 <= i < second.counters()->0.len(),
    ensures
        ({
            let (name, current) = second.counters()->0[i];
            let disk = second.disks(first.baselines(), first.time())[i];
            let passed = (second.at - first.at) as nat;
            &&& disk.read_bytes_per_sec matches Some(rate) ==> {
                &&& first.at < second.at
                &&& lookup(first.counters()->0, name) is Some
                &&& is_rate(
                    rate,
                    (disk.total_read_bytes - lookup(first.counters()->0, name)->0.first) as nat,
                    passed,
                )
            }
            &&& disk.write_bytes_per_sec matches Some(rate) ==> {
                &&& first.at < second.at
                &&& lookup(first.counters()->0, name) is Some
                &&& is_rate(
                    rate,
                    (disk.total_write_bytes - lookup(first.counters()->0, name)->0.second) as nat,
                    passed,
                )
            }
        }),
{
    let (name, current) = second.counters()->0[i];
    let disk = second.disks(first.baselines(), first.time())[i];
    lemma_rates_are_of_one_disk(first, second, i);
    lemma_disk_is_measured_between(first, second, i);
    if disk.read_bytes_per_sec is Some {
        let start = lookup(first.counters()->0, name)->0;
        lemma_rate_is_what_moved_on(start.first, current.first, first.at, second.at);
    }
    if disk.write_bytes_per_sec is Some {
        let start = lookup(first.counters()->0, name)->0;
        lemma_rate_is_what_moved_on(start.second, current.second, first.at, second.at);
    }
}

/// A disk is known by the number above zero that its file gives both before and behind the
/// counters, and by nothing else.
pub proof fn lemma_disk_is_known(ids: DiskIdentities, name: Seq<char>, number: nat)
    requires
        0 < number <= u64::MAX,
    ensures
        ids.of(name) == Some(number) <==> {
            &&& identity_text(ids.before, name) is Some && unsigned(
                trimmed(identity_text(ids.before, name)->0),
                u64::MAX as nat,
            ) == Some(number)
            &&& identity_text(ids.after, name) is Some && unsigned(
                trimmed(identity_text(ids.after, name)->0),
                u64::MAX as nat,
            ) == Some(number)
        },
        ids.of(name) != Some(0nat),
{
}

/// Which devices count: not those in memory or in files, not hidden ones, and not those that
/// are stacked on others. Where it cannot be told whether a device is hidden or stacked, it
/// does not count.
pub proof fn lemma_which_devices_count(device: BlockDeviceView)
    ensures
        is_leaf(device) ==> !begins(device.name, "loop"@) && !begins(device.name, "ram"@)
            && !begins(device.name, "zram"@),
        device.hidden is Failed || device.slaves is Failed ==> !is_leaf(device),
        device.slaves == (SlavesView::Listed { any: true }) ==> !is_leaf(device),
        device.hidden matches FlagView::Text(text) ==> trimmed(text) != "0"@ ==> !is_leaf(device),
        !is_leaf(device) ==> {
            ||| begins(device.name, "loop"@) || begins(device.name, "ram"@) || begins(
                device.name,
                "zram"@,
            )
            ||| device.hidden is Failed
            ||| device.slaves is Failed
            ||| device.slaves == (SlavesView::Listed { any: true })
            ||| device.hidden matches FlagView::Text(text) && trimmed(text) != "0"@
        },
{
}

// ---------------------------------------------------------------------------
// What is said of disks
// ---------------------------------------------------------------------------

/// Each disk without an identity counts once, and no other does.
pub proof fn lemma_unknown_disks_are_counted(
    counters: Seq<(Seq<char>, Counters)>,
    name: Seq<char>,
    counts: Counters,
    ids: DiskIdentities,
)
    ensures
        unknown_disks(Seq::empty(), ids) == 0,
        ids.of(name) is None ==> unknown_disks(counters.push((name, counts)), ids) == unknown_disks(
            counters,
            ids,
        ) + 1,
        ids.of(name) is Some ==> unknown_disks(counters.push((name, counts)), ids) == unknown_disks(
            counters,
            ids,
        ),
{
    assert(counters.push((name, counts)).drop_last() =~= counters);
}

/// Nothing is said where there are disks and all are known; no disks are told of, and so is how
/// many are unknown.
pub proof fn lemma_what_is_said_of_disks(count: nat, unknown: nat)
    ensures
        count > 0 && unknown == 0 ==> disk_notices(count, unknown).len() == 0,
        count == 0 ==> disk_notices(count, unknown).len() > 0 && disk_notices(count, unknown)[0]
            == "No readable whole-disk I/O counters were found."@,
        unknown > 0 ==> disk_notices(count, unknown).len() > 0 && begins(
            disk_notices(count, unknown).last(),
            decimal(unknown),
        ),
        disk_notices(count, unknown).len() == (if count == 0 {
            1nat
        } else {
            0
        }) + (if unknown > 0 {
            1nat
        } else {
            0
        }),
{
    if unknown > 0 {
        let text = disk_notices(count, unknown).last();
        assert(text.take(decimal(unknown).len() as int) =~= decimal(unknown));
    }
}

/// Whether something of a device that should be known is not.
pub open spec fn is_uncertain(device: BlockDeviceView) -> bool {
    match device.hidden {
        FlagView::Failed(_) => true,
        FlagView::Text(text) => trimmed(text) != "1"@ && (trimmed(text) != "0"@
            || device.slaves is Failed),
        FlagView::Missing => device.slaves is Failed,
    }
}

/// A device is told of by its name, once, exactly where it is no virtual one and something of it
/// is uncertain. What is told of does not count as a disk of its own.
pub proof fn lemma_uncertain_devices_are_named(device: BlockDeviceView)
    ensures
        leaf_notice(device).len() == if !is_virtual_disk(device.name) && is_uncertain(device) {
            1nat
        } else {
            0
        },
        leaf_notice(device).len() == 1 ==> begins(
            leaf_notice(device)[0],
            "Cannot inspect "@ + device.name,
        ) && !is_leaf(device),
{
    let start = "Cannot inspect "@ + device.name;
    reveal_strlit("0");
    reveal_strlit("1");
    assert("0"@[0] == '0' && "1"@[0] == '1');
    if leaf_notice(device).len() == 1 {
        let text = leaf_notice(device)[0];
        assert(text.take(start.len() as int) =~= start);
    }
}

/// What is said of each device is said in the order of the devices.
pub proof fn lemma_devices_are_told_in_order(
    path: Seq<char>,
    devices: Seq<BlockDeviceView>,
    device: BlockDeviceView,
)
    ensures
        leaf_notices(Seq::empty()).len() == 0,
        listing_notices(path, Ok(devices.push(device))) == listing_notices(path, Ok(devices))
            + leaf_notice(device),
{
    assert(devices.push(device).drop_last() =~= devices);
}

} // verus!
