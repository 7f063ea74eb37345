use loadpeek::cpus::{ClockFiles, Core};
use loadpeek::disks::{leaf_block_devices, BlockDevice, DiskReadings, Flag, Slaves};
use loadpeek::double::Double;
use loadpeek::metrics::{Collector, FrequencyStats, Readings, Snapshot};
use loadpeek::networks::{Interface, NetworkReadings};
use loadpeek::readings::{Identity, Reading};
use std::collections::BTreeMap;

fn d(value: f64) -> Double {
    Double::from_bits(value.to_bits())
}

fn f(value: Double) -> f64 {
    f64::from_bits(value.bits)
}

fn frequency_snapshot(frequencies: &[Option<f64>]) -> Snapshot {
    Snapshot {
        cores: frequencies
            .iter()
            .enumerate()
            .map(|(id, frequency_mhz)| Core {
                id,
                percent: None,
                frequency_mhz: frequency_mhz.map(d),
            })
            .collect(),
        ..Snapshot::default()
    }
}

#[test]
fn cpu_frequency_stats_include_minimum_average_and_maximum() {
    let snapshot = frequency_snapshot(&[Some(3200.0), Some(800.0), Some(2000.0)]);
    assert_eq!(
        snapshot.cpu_frequency_stats(),
        Some(FrequencyStats {
            min_mhz: d(800.0),
            average_mhz: d(2000.0),
            max_mhz: d(3200.0),
        })
    );
}

#[test]
fn cpu_frequency_stats_ignore_missing_and_invalid_readings() {
    let snapshot = frequency_snapshot(&[
        None,
        Some(900.0),
        Some(f64::NAN),
        Some(0.0),
        Some(-100.0),
        Some(f64::INFINITY),
        Some(f64::NEG_INFINITY),
        Some(2700.0),
    ]);
    assert_eq!(
        snapshot.cpu_frequency_stats(),
        Some(FrequencyStats {
            min_mhz: d(900.0),
            average_mhz: d(1800.0),
            max_mhz: d(2700.0),
        })
    );
}

#[test]
fn cpu_frequency_stats_match_the_only_available_core() {
    let snapshot = frequency_snapshot(&[None, Some(2400.5), None]);
    assert_eq!(
        snapshot.cpu_frequency_stats(),
        Some(FrequencyStats {
            min_mhz: d(2400.5),
            average_mhz: d(2400.5),
            max_mhz: d(2400.5),
        })
    );
}

#[test]
fn the_mean_clock_lies_between_the_slowest_and_the_fastest() {
    let clocks = [4999.999, 5000.000_1, 4999.999, f64::MAX, 5e-324, 1e308, 3.3];
    for count in 1..=clocks.len() {
        let readings: Vec<Option<f64>> = clocks[..count].iter().copied().map(Some).collect();
        let stats = frequency_snapshot(&readings).cpu_frequency_stats().unwrap();
        let [min, mean, max] = [stats.min_mhz, stats.average_mhz, stats.max_mhz]
            .map(|value| f64::from_bits(value.bits));
        assert!(min <= mean && mean <= max, "{min} {mean} {max}");
    }
}

#[test]
fn cpu_frequency_stats_are_missing_without_valid_readings() {
    assert_eq!(Snapshot::default().cpu_frequency_stats(), None);
    assert_eq!(frequency_snapshot(&[None, None]).cpu_frequency_stats(), None);
    assert_eq!(
        frequency_snapshot(&[Some(0.0), Some(-1.0), Some(f64::NAN)]).cpu_frequency_stats(),
        None
    );
}

/// What the files below `proc` and `sys` hold; a directory where it is `None`.
struct Fixture {
    files: BTreeMap<String, Option<String>>,
    now: u64,
}

impl Fixture {
    fn new() -> Self {
        Fixture { files: BTreeMap::new(), now: 0 }
    }

    fn write(&mut self, path: &str, text: &str) {
        self.files.insert(path.to_owned(), Some(text.to_owned()));
    }

    fn create_dir(&mut self, path: &str) {
        self.files.insert(path.to_owned(), None);
    }

    fn remove(&mut self, path: &str) {
        self.files.remove(path);
    }

    fn text(&self, path: &str) -> Option<String> {
        self.files.get(path).cloned().flatten()
    }

    fn required(&self, path: &str) -> Reading {
        Reading {
            path: path.to_owned(),
            text: self.text(path).ok_or_else(|| "No such file or directory (os error 2)".to_owned()),
        }
    }

    /// The names directly below a directory.
    fn names(&self, directory: &str) -> Vec<String> {
        let mut names: Vec<String> = self
            .files
            .keys()
            .filter_map(|path| path.strip_prefix(directory)?.strip_prefix('/'))
            .map(|rest| rest.split('/').next().unwrap().to_owned())
            .collect();
        names.dedup();
        names
    }

    fn is_there(&self, path: &str) -> bool {
        self.files.contains_key(path) || !self.names(path).is_empty()
    }

    fn identities(&self, directory: &str, file: &str) -> Vec<Identity> {
        self.names(directory)
            .into_iter()
            .map(|name| Identity { text: self.text(&format!("{directory}/{name}/{file}")), name })
            .collect()
    }

    fn devices(&self, directory: &str) -> Result<Vec<BlockDevice>, String> {
        if !self.is_there(directory) {
            return Err("No such file or directory (os error 2)".to_owned());
        }
        Ok(self
            .names(directory)
            .into_iter()
            .map(|name| {
                let hidden = match self.files.get(&format!("{directory}/{name}/hidden")) {
                    Some(Some(text)) => Flag::Text(text.clone()),
                    Some(None) => Flag::Failed("Is a directory (os error 21)".to_owned()),
                    None => Flag::Missing,
                };
                let slaves = format!("{directory}/{name}/slaves");
                let slaves = if self.is_there(&slaves) {
                    Slaves::Listed { any: !self.names(&slaves).is_empty() }
                } else {
                    Slaves::Missing
                };
                BlockDevice { name, hidden, slaves }
            })
            .collect())
    }

    fn disks(&mut self) -> DiskReadings {
        self.now += 1_000_000_000;
        let ids = self.identities("sys/block", "diskseq");
        DiskReadings {
            before: ids.clone(),
            diskstats: self.required("proc/diskstats"),
            at: self.now,
            path: "sys/block".to_owned(),
            devices: self.devices("sys/block"),
            after: ids,
        }
    }

    fn networks(&mut self) -> NetworkReadings {
        self.now += 1_000_000_000;
        let file = |name: &str, file: &str| self.text(&format!("sys/class/net/{name}/{file}"));
        NetworkReadings {
            before: self.identities("sys/class/net", "ifindex"),
            dev: self.required("proc/net/dev"),
            at: self.now,
            interfaces: self
                .names("sys/class/net")
                .into_iter()
                .map(|name| Interface {
                    ifindex: file(&name, "ifindex"),
                    flags: file(&name, "flags"),
                    operstate: file(&name, "operstate"),
                    name,
                })
                .collect(),
        }
    }

    fn readings(&mut self) -> Readings {
        let disks = self.disks();
        let networks = self.networks();
        Readings {
            uptime: self.required("proc/uptime"),
            loadavg: self.required("proc/loadavg"),
            cpuinfo: self.required("proc/cpuinfo"),
            stat: self.required("proc/stat"),
            clocks: self
                .names("sys/devices/system/cpu")
                .into_iter()
                .map(|name| {
                    let root = format!("sys/devices/system/cpu/{name}/cpufreq");
                    ClockFiles {
                        hardware: self.text(&format!("{root}/cpuinfo_cur_freq")),
                        scaling: self.text(&format!("{root}/scaling_cur_freq")),
                        name,
                    }
                })
                .collect(),
            meminfo: self.required("proc/meminfo"),
            disks,
            networks,
            monitors: Vec::new(),
            zones: Vec::new(),
        }
    }
}

fn collector() -> Collector {
    Collector::new(&None, &None)
}

#[test]
fn collector_first_sample_and_missing_sources_do_not_invent_rates() {
    let mut fixture = Fixture::new();
    fixture.write(
        "proc/stat",
        "cpu 100 0 100 800 0 0 0 0\ncpu0 100 0 100 800 0 0 0 0",
    );
    fixture.write("proc/diskstats", "8 0 sda 1 0 20 0 2 0 30 0 0 0 0");
    fixture.create_dir("sys/block/sda/slaves");
    fixture.write("proc/net/dev", "eth0: 100 0 0 0 0 0 0 0 200 0 0 0 0 0 0 0");
    let mut collector = collector();
    let sample = collector.sample(&fixture.readings());
    assert_eq!(sample.cpu_percent, None);
    assert_eq!(sample.cores[0].percent, None);
    assert_eq!(sample.disks[0].read_bytes_per_sec, None);
    assert_eq!(sample.networks[0].received_bytes_per_sec, None);
    assert!(sample.uptime_secs.is_nan());
    assert_eq!(sample.memory.total_bytes, 0);
    assert!(sample.sensors.is_empty());
    assert!(!sample.warnings.is_empty());
    fixture.remove("proc/stat");
    assert!(collector.sample(&fixture.readings()).cpu_percent.is_none());
    fixture.write("proc/stat", "cpu 200 0 200 1600 0 0 0 0");
    assert!(collector.sample(&fixture.readings()).cpu_percent.is_none());
}

#[test]
fn a_sample_holds_what_the_files_say() {
    let mut fixture = Fixture::new();
    fixture.write("proc/uptime", "90061.25 1.0\n");
    fixture.write("proc/loadavg", "0.50 1.25 2.00 1/200 12345\n");
    fixture.write("proc/cpuinfo", "processor : 0\nmodel name : Example\ncpu MHz : 1000\n");
    fixture.write("proc/stat", "cpu 100 0 0 100\ncpu10 1 0 0 1\ncpu2 1 0 0 1\n");
    fixture.write("proc/meminfo", "MemTotal: 100 kB\nMemAvailable: 25 kB\n");
    fixture.write("proc/diskstats", "8 0 sda 1 0 20 0 2 0 30 0 0 0 0");
    fixture.write("sys/block/sda/diskseq", "1");
    fixture.write("proc/net/dev", "eth0: 100 0 0 0 0 0 0 0 200 0 0 0 0 0 0 0");
    fixture.write("sys/class/net/eth0/ifindex", "2");
    fixture.write("sys/class/net/eth0/flags", "0x1003");
    fixture.write("sys/devices/system/cpu/cpu2/cpufreq/cpuinfo_cur_freq", "bad");
    fixture.write("sys/devices/system/cpu/cpu2/cpufreq/scaling_cur_freq", "2500000\n");
    let mut collector = Collector::new(&Some("host\n".to_owned()), &Some(" 6.1 ".to_owned()));
    collector.sample(&fixture.readings());
    fixture.write("proc/stat", "cpu 175 0 0 125\ncpu10 2 0 0 1\ncpu2 1 0 0 2\n");
    fixture.write("proc/diskstats", "8 0 sda 1 0 40 0 2 0 60 0 0 0 0");
    let sample = collector.sample(&fixture.readings());
    assert_eq!(f(sample.uptime_secs), 90061.25);
    assert_eq!(sample.load.map(f), [0.5, 1.25, 2.0]);
    assert_eq!(sample.cpu_model, "Example");
    assert_eq!(sample.hostname, "host");
    assert_eq!(sample.kernel, "6.1");
    assert_eq!(sample.cpu_percent.map(f), Some(75.0));
    let cores: Vec<(usize, Option<f64>, Option<f64>)> = sample
        .cores
        .iter()
        .map(|core| (core.id, core.percent.map(f), core.frequency_mhz.map(f)))
        .collect();
    assert_eq!(cores, [(2, Some(0.0), Some(2500.0)), (10, Some(100.0), None)]);
    assert_eq!(sample.memory.used_bytes, 75 * 1024);
    // Each sample takes two seconds of the clock that counts disks.
    assert_eq!(sample.disks[0].read_bytes_per_sec.map(f), Some(20.0 * 512.0 / 2.0));
    assert_eq!(sample.disks[0].write_bytes_per_sec.map(f), Some(30.0 * 512.0 / 2.0));
    assert_eq!(sample.networks[0].received_bytes_per_sec.map(f), Some(0.0));
    assert_eq!(sample.networks[0].is_up, Some(true));
    assert_eq!(
        sample.warnings,
        ["Temperature sensors are unavailable. Hardware, drivers, or permissions may limit access."]
    );
}

#[test]
fn what_is_missing_from_a_sample_is_told_in_order() {
    let mut fixture = Fixture::new();
    fixture.write("proc/uptime", "soon");
    fixture.write("proc/loadavg", "0.5 0.5");
    fixture.write("proc/stat", "cpu0 1 0 0 1\n");
    fixture.write("proc/meminfo", "MemTotal: 10 kB\nMemFree: 4 kB\n");
    fixture.create_dir("sys/block");
    fixture.write("proc/diskstats", "");
    fixture.write("proc/net/dev", "");
    let sample = collector().sample(&fixture.readings());
    assert_eq!(
        sample.warnings,
        [
            "System uptime could not be parsed.",
            "Load averages are unavailable or incomplete.",
            "Cannot read proc/cpuinfo: No such file or directory (os error 2)",
            "CPU utilization counters are unavailable.",
            "CPU clock readings are not exposed by this system.",
            "Available memory is estimated because MemAvailable is not exposed.",
            "No readable whole-disk I/O counters were found.",
            "No non-loopback network interfaces were found.",
            "Temperature sensors are unavailable. Hardware, drivers, or permissions may limit access.",
        ]
    );
    assert_eq!(sample.hostname, "Linux host");
    assert_eq!(sample.kernel, "Unavailable");
    assert_eq!(f(sample.load[1]), 0.5);
    assert!(sample.load[2].is_nan());
    assert_eq!(sample.memory.available_bytes, 4 * 1024);
}

fn leaf_names(fixture: &Fixture, warnings: &mut Vec<String>) -> Vec<String> {
    leaf_block_devices("block", &fixture.devices("block"), warnings)
        .unwrap()
        .entries
        .into_iter()
        .map(|entry| entry.name)
        .collect()
}

#[test]
fn block_discovery_omits_memory_disks_and_stacked_devices() {
    let mut fixture = Fixture::new();
    fixture.create_dir("block/nvme0n1/slaves");
    fixture.write("block/dm-0/slaves/nvme0n1", "");
    fixture.write("block/loop0/stat", "");
    fixture.write("block/zram0/stat", "");
    assert_eq!(leaf_names(&fixture, &mut Vec::new()), ["nvme0n1"]);
}

#[test]
fn devices_that_cannot_be_listed_are_told_of() {
    let mut warnings = Vec::new();
    let fixture = Fixture::new();
    assert!(leaf_block_devices("sys/block", &fixture.devices("sys/block"), &mut warnings).is_none());
    assert_eq!(
        warnings,
        ["Cannot discover whole disks in sys/block: No such file or directory (os error 2)"]
    );
    let devices = Ok(vec![BlockDevice {
        name: "md0".to_owned(),
        hidden: Flag::Missing,
        slaves: Slaves::Failed("Permission denied (os error 13)".to_owned()),
    }]);
    warnings.clear();
    assert!(leaf_block_devices("sys/block", &devices, &mut warnings).unwrap().is_empty());
    assert_eq!(warnings, ["Cannot inspect md0 disk topology: Permission denied (os error 13)"]);
}

#[test]
fn native_nvme_multipath_counts_one_layer_and_keeps_ordinary_nvme() {
    let mut fixture = Fixture::new();
    for (name, diskseq, hidden) in [
        ("nvme0n1", "10", "0"),
        ("nvme0c0n1", "11", "1"),
        ("nvme0c1n1", "12", "1"),
        ("nvme1n1", "13", "0"),
    ] {
        fixture.write(&format!("sys/block/{name}/diskseq"), diskseq);
        fixture.write(&format!("sys/block/{name}/hidden"), hidden);
        fixture.create_dir(&format!("sys/block/{name}/slaves"));
    }
    // Native multipath does not populate slaves/. Both the visible
    // namespace and its hidden paths account for the same requests.
    fixture.write(
        "proc/diskstats",
        "259 0 nvme0n1 1 0 1000 0 1 0 500 0 0 0 0\n\
         259 1 nvme0c0n1 1 0 400 0 1 0 200 0 0 0 0\n\
         259 2 nvme0c1n1 1 0 600 0 1 0 300 0 0 0 0\n\
         259 3 nvme1n1 1 0 100 0 1 0 100 0 0 0 0",
    );
    let mut collector = collector();
    let mut warnings = Vec::new();
    let before = collector.sample_disks(&fixture.disks(), &mut warnings);
    assert_eq!(
        before
            .iter()
            .map(|disk| disk.name.as_str())
            .collect::<Vec<_>>(),
        ["nvme0n1", "nvme1n1"]
    );
    assert!(before.iter().all(|disk| disk.read_bytes_per_sec.is_none()));
    fixture.write(
        "proc/diskstats",
        "259 0 nvme0n1 1 0 1200 0 1 0 600 0 0 0 0\n\
         259 1 nvme0c0n1 1 0 500 0 1 0 250 0 0 0 0\n\
         259 2 nvme0c1n1 1 0 700 0 1 0 350 0 0 0 0\n\
         259 3 nvme1n1 1 0 150 0 1 0 125 0 0 0 0",
    );
    let after = collector.sample_disks(&fixture.disks(), &mut warnings);
    let read_delta: u64 = before
        .iter()
        .zip(&after)
        .map(|(before, after)| after.total_read_bytes - before.total_read_bytes)
        .sum();
    let write_delta: u64 = before
        .iter()
        .zip(&after)
        .map(|(before, after)| after.total_write_bytes - before.total_write_bytes)
        .sum();
    assert_eq!(read_delta, 250 * 512);
    assert_eq!(write_delta, 125 * 512);
    let read_rate: f64 = after
        .iter()
        .map(|disk| f(disk.read_bytes_per_sec.unwrap()))
        .sum();
    let write_rate: f64 = after
        .iter()
        .map(|disk| f(disk.write_bytes_per_sec.unwrap()))
        .sum();
    assert!((read_rate / f(after[0].read_bytes_per_sec.unwrap()) - 1.25).abs() < 1e-12);
    assert!((write_rate / f(after[0].write_bytes_per_sec.unwrap()) - 1.25).abs() < 1e-12);
    assert!(warnings.is_empty());
}

#[test]
fn block_discovery_omits_uncertain_visibility_but_keeps_legacy_devices() {
    let mut fixture = Fixture::new();
    fixture.write("block/sda/diskseq", "1");
    fixture.write("block/sdb/hidden", "invalid");
    fixture.create_dir("block/sdc/hidden");
    let mut warnings = Vec::new();
    assert_eq!(leaf_names(&fixture, &mut warnings), ["sda"]);
    assert_eq!(warnings.len(), 2);
    assert!(warnings.iter().all(|warning| warning.contains("disk visibility")));
}

#[test]
fn replacing_a_disk_requires_a_new_baseline() {
    let mut fixture = Fixture::new();
    fixture.write("sys/block/sda/diskseq", "10");
    fixture.write("proc/diskstats", "8 0 sda 1 0 20 0 2 0 30 0 0 0 0");
    let mut collector = collector();
    let mut warnings = Vec::new();
    assert!(
        collector.sample_disks(&fixture.disks(), &mut warnings)[0]
            .read_bytes_per_sec
            .is_none()
    );
    let steady = collector.sample_disks(&fixture.disks(), &mut warnings);
    assert_eq!(steady[0].read_bytes_per_sec.map(f), Some(0.0));
    assert_eq!(steady[0].write_bytes_per_sec.map(f), Some(0.0));

    // A newly attached disk can already have larger counters by the next
    // sample, so a decreasing-counter check cannot identify replacement.
    fixture.write("sys/block/sda/diskseq", "11");
    fixture.write("proc/diskstats", "8 0 sda 1 0 1000 0 2 0 2000 0 0 0 0");
    let replacement = collector.sample_disks(&fixture.disks(), &mut warnings);
    assert_eq!(replacement[0].total_read_bytes, 512_000);
    assert_eq!(replacement[0].total_write_bytes, 1_024_000);
    assert_eq!(replacement[0].read_bytes_per_sec, None);
    assert_eq!(replacement[0].write_bytes_per_sec, None);
    assert_eq!(
        collector.sample_disks(&fixture.disks(), &mut warnings)[0]
            .read_bytes_per_sec
            .map(f),
        Some(0.0)
    );
    assert!(warnings.is_empty());
}

#[test]
fn unavailable_disk_identity_preserves_totals_and_reprimes_rates() {
    let mut fixture = Fixture::new();
    let identity = "sys/block/sda/diskseq";
    fixture.create_dir("sys/block/sda");
    fixture.write(identity, "10");
    fixture.write("proc/diskstats", "8 0 sda 1 0 20 0 2 0 30 0 0 0 0");
    let mut collector = collector();
    let mut warnings = Vec::new();
    collector.sample_disks(&fixture.disks(), &mut warnings);
    assert_eq!(
        collector.sample_disks(&fixture.disks(), &mut warnings)[0]
            .read_bytes_per_sec
            .map(f),
        Some(0.0)
    );
    for invalid in [None, Some(""), Some("invalid"), Some("0"), Some("-1")] {
        if let Some(value) = invalid {
            fixture.write(identity, value);
        } else {
            fixture.remove(identity);
        }
        warnings.clear();
        let sample = collector.sample_disks(&fixture.disks(), &mut warnings);
        assert_eq!(sample[0].total_read_bytes, 20 * 512);
        assert_eq!(sample[0].total_write_bytes, 30 * 512);
        assert_eq!(sample[0].read_bytes_per_sec, None);
        assert_eq!(sample[0].write_bytes_per_sec, None);
        assert!(warnings.iter().any(|warning| warning.contains("disk identity")));
        fixture.write(identity, "10");
        warnings.clear();
        let recovered = collector.sample_disks(&fixture.disks(), &mut warnings);
        assert_eq!(recovered[0].read_bytes_per_sec, None);
        assert_eq!(recovered[0].write_bytes_per_sec, None);
        assert_eq!(
            collector.sample_disks(&fixture.disks(), &mut warnings)[0]
                .read_bytes_per_sec
                .map(f),
            Some(0.0)
        );
        assert!(warnings.is_empty());
    }
}

#[test]
fn replacement_during_diskstats_read_does_not_seed_a_mixed_baseline() {
    let mut fixture = Fixture::new();
    fixture.write("sys/block/sda/diskseq", "10");
    let old_counters = "8 0 sda 1 0 20 0 2 0 30 0 0 0 0";
    fixture.write("proc/diskstats", old_counters);
    let mut collector = collector();
    collector.sample_disks(&fixture.disks(), &mut Vec::new());
    // The old counters are published only after the disk was replaced.
    let mut raced = fixture.disks();
    fixture.write("sys/block/sda/diskseq", "11");
    raced.after = fixture.identities("sys/block", "diskseq");
    let mut warnings = Vec::new();
    let sample = collector.sample_disks(&raced, &mut warnings);
    assert_eq!(sample[0].read_bytes_per_sec, None);
    assert!(warnings.iter().any(|warning| warning.contains("disk identity")));

    fixture.write("proc/diskstats", "8 0 sda 1 0 1000 0 2 0 2000 0 0 0 0");
    let mut warnings = Vec::new();
    let fresh = collector.sample_disks(&fixture.disks(), &mut warnings);
    assert_eq!(fresh[0].read_bytes_per_sec, None);
    assert_eq!(fresh[0].write_bytes_per_sec, None);
    assert_eq!(
        collector.sample_disks(&fixture.disks(), &mut warnings)[0]
            .read_bytes_per_sec
            .map(f),
        Some(0.0)
    );
    assert!(warnings.is_empty());
}

#[test]
fn counters_that_cannot_be_read_reprime_the_rates() {
    let mut fixture = Fixture::new();
    fixture.write("sys/block/sda/diskseq", "10");
    fixture.write("sys/class/net/tun0/ifindex", "7");
    fixture.write("proc/diskstats", "8 0 sda 1 0 20 0 2 0 30 0 0 0 0");
    fixture.write("proc/net/dev", "tun0: 1000 0 0 0 0 0 0 0 2000 0 0 0 0 0 0 0");
    let mut collector = collector();
    let mut warnings = Vec::new();
    collector.sample_disks(&fixture.disks(), &mut warnings);
    collector.sample_networks(&fixture.networks(), &mut warnings);
    fixture.remove("proc/diskstats");
    fixture.remove("proc/net/dev");
    warnings.clear();
    assert!(collector.sample_disks(&fixture.disks(), &mut warnings).is_empty());
    assert!(collector.sample_networks(&fixture.networks(), &mut warnings).is_empty());
    assert_eq!(
        warnings,
        [
            "Cannot read proc/diskstats: No such file or directory (os error 2)",
            "Cannot read proc/net/dev: No such file or directory (os error 2)",
        ]
    );
    fixture.write("proc/diskstats", "8 0 sda 1 0 20 0 2 0 30 0 0 0 0");
    fixture.write("proc/net/dev", "tun0: 1000 0 0 0 0 0 0 0 2000 0 0 0 0 0 0 0");
    let disks = collector.sample_disks(&fixture.disks(), &mut warnings);
    let networks = collector.sample_networks(&fixture.networks(), &mut warnings);
    assert_eq!(disks[0].read_bytes_per_sec, None);
    assert_eq!(networks[0].received_bytes_per_sec, None);
}

#[test]
fn replacing_a_network_interface_requires_a_new_baseline() {
    let mut fixture = Fixture::new();
    fixture.write("sys/class/net/tun0/ifindex", "7");
    fixture.write("sys/class/net/tun0/flags", "0x1");
    fixture.write(
        "proc/net/dev",
        "tun0: 1000 0 0 0 0 0 0 0 2000 0 0 0 0 0 0 0",
    );
    let mut collector = collector();
    let mut warnings = Vec::new();
    assert!(
        collector.sample_networks(&fixture.networks(), &mut warnings)[0]
            .received_bytes_per_sec
            .is_none()
    );
    let steady = collector.sample_networks(&fixture.networks(), &mut warnings);
    assert_eq!(steady[0].received_bytes_per_sec.map(f), Some(0.0));
    assert_eq!(steady[0].transmitted_bytes_per_sec.map(f), Some(0.0));

    // Reuse the name with larger counters: a decrease cannot detect this.
    fixture.write("sys/class/net/tun0/ifindex", "8");
    fixture.write(
        "proc/net/dev",
        "tun0: 5000 0 0 0 0 0 0 0 8000 0 0 0 0 0 0 0",
    );
    let replaced = collector.sample_networks(&fixture.networks(), &mut warnings);
    assert_eq!(replaced[0].total_received_bytes, 5000);
    assert_eq!(replaced[0].total_transmitted_bytes, 8000);
    assert_eq!(replaced[0].received_bytes_per_sec, None);
    assert_eq!(replaced[0].transmitted_bytes_per_sec, None);
    let steady = collector.sample_networks(&fixture.networks(), &mut warnings);
    assert_eq!(steady[0].received_bytes_per_sec.map(f), Some(0.0));
    assert_eq!(steady[0].transmitted_bytes_per_sec.map(f), Some(0.0));
    assert!(warnings.is_empty());
}

#[test]
fn missing_or_invalid_interface_identity_preserves_totals_and_reprimes_rates() {
    let mut fixture = Fixture::new();
    fixture.write("sys/class/net/tun0/ifindex", "7");
    fixture.write("sys/class/net/eth0/ifindex", "2");
    fixture.write("sys/class/net/tun0/flags", "0x1");
    fixture.write("sys/class/net/eth0/flags", "0x1");
    fixture.write(
        "proc/net/dev",
        "tun0: 1000 0 0 0 0 0 0 0 2000 0 0 0 0 0 0 0\neth0: 3000 0 0 0 0 0 0 0 4000 0 0 0 0 0 0 0",
    );
    let mut collector = collector();
    let mut warnings = Vec::new();
    collector.sample_networks(&fixture.networks(), &mut warnings);
    collector.sample_networks(&fixture.networks(), &mut warnings);

    for identity in [None, Some(""), Some("0"), Some("-1"), Some("bad")] {
        if let Some(identity) = identity {
            fixture.write("sys/class/net/tun0/ifindex", identity);
        } else {
            fixture.remove("sys/class/net/tun0/ifindex");
        }
        warnings.clear();
        let unavailable = collector.sample_networks(&fixture.networks(), &mut warnings);
        let tun = unavailable
            .iter()
            .find(|network| network.name == "tun0")
            .unwrap();
        assert_eq!(tun.total_received_bytes, 1000);
        assert_eq!(tun.total_transmitted_bytes, 2000);
        assert_eq!(tun.received_bytes_per_sec, None);
        assert_eq!(tun.transmitted_bytes_per_sec, None);
        let eth = unavailable
            .iter()
            .find(|network| network.name == "eth0")
            .unwrap();
        assert_eq!(eth.received_bytes_per_sec.map(f), Some(0.0));
        assert_eq!(warnings.len(), 1);
        assert!(warnings[0].contains("identity"));

        fixture.write("sys/class/net/tun0/ifindex", "7");
        warnings.clear();
        let recovered = collector.sample_networks(&fixture.networks(), &mut warnings);
        let tun = recovered
            .iter()
            .find(|network| network.name == "tun0")
            .unwrap();
        assert_eq!(tun.received_bytes_per_sec, None);
        assert_eq!(tun.transmitted_bytes_per_sec, None);
        let steady = collector.sample_networks(&fixture.networks(), &mut warnings);
        let tun = steady
            .iter()
            .find(|network| network.name == "tun0")
            .unwrap();
        assert_eq!(tun.received_bytes_per_sec.map(f), Some(0.0));
        assert_eq!(tun.transmitted_bytes_per_sec.map(f), Some(0.0));
        assert!(warnings.is_empty());
    }
}

#[test]
fn unavailable_network_status_preserves_counters_and_recovers() {
    let mut fixture = Fixture::new();
    fixture.write("sys/class/net/tun0/ifindex", "7");
    fixture.write(
        "proc/net/dev",
        "tun0: 1000 0 0 0 0 0 0 0 2000 0 0 0 0 0 0 0",
    );
    let mut collector = collector();
    let mut warnings = Vec::new();
    let first = collector.sample_networks(&fixture.networks(), &mut warnings);
    assert_eq!(first[0].is_up, None);
    assert_eq!(first[0].received_bytes_per_sec, None);
    assert_eq!(warnings.len(), 1);
    assert!(warnings[0].contains("status"));

    for state in [None, Some("unknown"), Some(""), Some("invalid")] {
        if let Some(state) = state {
            fixture.write("sys/class/net/tun0/operstate", state);
        }
        warnings.clear();
        let networks = collector.sample_networks(&fixture.networks(), &mut warnings);
        let network = &networks[0];
        assert_eq!(network.is_up, None);
        assert_eq!(network.total_received_bytes, 1000);
        assert_eq!(network.total_transmitted_bytes, 2000);
        assert_eq!(network.received_bytes_per_sec.map(f), Some(0.0));
        assert_eq!(network.transmitted_bytes_per_sec.map(f), Some(0.0));
        assert_eq!(warnings.len(), 1);
        assert!(warnings[0].contains("status"));
    }

    // A read error must behave like a missing state, even with valid identity.
    fixture.write("sys/class/net/tun0/flags", "invalid");
    fixture.create_dir("sys/class/net/tun0/operstate");
    warnings.clear();
    assert_eq!(collector.sample_networks(&fixture.networks(), &mut warnings)[0].is_up, None);
    assert_eq!(warnings.len(), 1);

    // Status recovery does not discard an otherwise valid rate baseline.
    fixture.write("sys/class/net/tun0/flags", "0x1");
    warnings.clear();
    let recovered = collector.sample_networks(&fixture.networks(), &mut warnings);
    assert_eq!(recovered[0].is_up, Some(true));
    assert_eq!(recovered[0].received_bytes_per_sec.map(f), Some(0.0));
    assert!(warnings.is_empty());
}

#[test]
fn network_status_prefers_flags_and_requires_a_definite_fallback() {
    let mut fixture = Fixture::new();
    fixture.write("sys/class/net/tun0/ifindex", "7");
    fixture.write(
        "proc/net/dev",
        "tun0: 1000 0 0 0 0 0 0 0 2000 0 0 0 0 0 0 0",
    );
    let mut collector = collector();
    for (flags, state, expected) in [
        ("0x1", "unknown", Some(true)),
        ("0x1", "down", Some(true)),
        ("0x0", "up", Some(false)),
        ("invalid", "up", Some(true)),
        ("invalid", "down", Some(false)),
        ("invalid", "lowerlayerdown", Some(false)),
        ("invalid", "unknown", None),
        ("", "dormant", None),
        ("", "testing", None),
    ] {
        fixture.write("sys/class/net/tun0/flags", flags);
        fixture.write("sys/class/net/tun0/operstate", state);
        let mut warnings = Vec::new();
        let networks = collector.sample_networks(&fixture.networks(), &mut warnings);
        assert_eq!(networks[0].is_up, expected, "flags={flags}, state={state}");
        assert_eq!(warnings.len(), usize::from(expected.is_none()));
    }
}

#[test]
fn a_disk_has_rates_as_soon_as_any_time_has_passed() {
    let mut fixture = Fixture::new();
    fixture.write("sys/block/sda/diskseq", "10");
    fixture.write("proc/diskstats", "8 0 sda 1 0 0 0 2 0 30 0 0 0 0");
    let mut collector = collector();
    let mut warnings = Vec::new();
    let first = DiskReadings { at: 5, ..fixture.disks() };
    assert_eq!(collector.sample_disks(&first, &mut warnings)[0].read_bytes_per_sec, None);
    let nanosecond = std::time::Duration::from_nanos(1).as_secs_f64();
    fixture.write("proc/diskstats", "8 0 sda 1 0 36028797018963967 0 2 0 20 0 0 0 0");
    let next = DiskReadings { at: 6, ..fixture.disks() };
    let disks = collector.sample_disks(&next, &mut warnings);
    assert_eq!(
        disks[0].read_bytes_per_sec.map(f),
        Some((36_028_797_018_963_967_u64 * 512) as f64 / nanosecond)
    );
    // What was written has gone back, so its rate alone is missing.
    assert_eq!(disks[0].write_bytes_per_sec, None);
    let again = collector.sample_disks(&next, &mut warnings);
    assert_eq!(again[0].read_bytes_per_sec, None);
    assert_eq!(again[0].write_bytes_per_sec, None);
}

#[test]
fn an_interface_has_rates_as_soon_as_any_time_has_passed() {
    let mut fixture = Fixture::new();
    fixture.write("sys/class/net/tun0/ifindex", "7");
    fixture.write("proc/net/dev", "tun0: 0 0 0 0 0 0 0 0 2000 0 0 0 0 0 0 0");
    let mut collector = collector();
    let mut warnings = Vec::new();
    let first = NetworkReadings { at: 5, ..fixture.networks() };
    assert_eq!(collector.sample_networks(&first, &mut warnings)[0].received_bytes_per_sec, None);
    fixture.write("proc/net/dev", "tun0: 18446744073709551615 0 0 0 0 0 0 0 1000 0 0 0 0 0 0 0");
    let next = NetworkReadings { at: 6, ..fixture.networks() };
    let networks = collector.sample_networks(&next, &mut warnings);
    let nanosecond = std::time::Duration::from_nanos(1).as_secs_f64();
    assert_eq!(networks[0].received_bytes_per_sec.map(f), Some(u64::MAX as f64 / nanosecond));
    assert_eq!(networks[0].transmitted_bytes_per_sec, None);
    let again = collector.sample_networks(&next, &mut warnings);
    assert_eq!(again[0].received_bytes_per_sec, None);
    assert_eq!(again[0].transmitted_bytes_per_sec, None);
}

#[test]
fn devices_are_listed_once_and_in_the_order_of_their_names() {
    let mut fixture = Fixture::new();
    for name in ["sda", "sdb", "sdc"] {
        fixture.write(&format!("sys/block/{name}/diskseq"), "10");
    }
    fixture.create_dir("sys/block/dm-0/slaves/sda");
    fixture.write(
        "proc/diskstats",
        "8 1 sdb 1 0 1 0 1 0 1 0 0 0 0\n8 0 sda 1 0 2 0 1 0 2 0 0 0 0\n\
         8 1 sdb 1 0 3 0 1 0 3 0 0 0 0\n253 0 dm-0 1 0 4 0 1 0 4 0 0 0 0",
    );
    fixture.write(
        "proc/net/dev",
        "wlan0: 1 0 0 0 0 0 0 0 2 0 0 0 0 0 0 0\neth0: 3 0 0 0 0 0 0 0 4 0 0 0 0 0 0 0",
    );
    let mut collector = collector();
    let mut warnings = Vec::new();
    let disks = collector.sample_disks(&fixture.disks(), &mut warnings);
    let names: Vec<_> = disks.iter().map(|disk| disk.name.as_str()).collect();
    assert_eq!(names, ["sda", "sdb"]);
    let networks = collector.sample_networks(&fixture.networks(), &mut warnings);
    let names: Vec<_> = networks.iter().map(|network| network.name.as_str()).collect();
    assert_eq!(names, ["eth0", "wlan0"]);
}
