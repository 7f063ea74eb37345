use loadpeek::counters::Memory;
use loadpeek::cpus::Core;
use loadpeek::disks::Disk;
use loadpeek::double::Double;
use loadpeek::figures::{
    byte_count, bytes, core_percent, cpu_frequency, cpu_temp, critical, disk_rate, frequency,
    link_state, memory_percent, network_rate, number, percent, rate, sensor_celsius, sum_rates,
    swap_percent, temperature, threshold, uptime,
};
use loadpeek::metrics::Snapshot;
use loadpeek::monitor::{no_sample, Loadpeek, Page, Sample};
use loadpeek::networks::Network;
use loadpeek::processes::ProcessSnapshot;
use loadpeek::schedule::{Command, Schedule, PAUSE};
use loadpeek::sensors::{CpuTemperatureSource, Sensor};
use loadpeek::theme::{BLUE, GREEN};

const SECOND: u64 = 1_000_000_000;

fn d(value: f64) -> Double {
    Double::from_bits(value.to_bits())
}

fn f(value: Double) -> f64 {
    f64::from_bits(value.bits)
}

fn total(rates: &[Option<f64>]) -> Option<f64> {
    sum_rates(&rates.iter().map(|rate| rate.map(d)).collect()).map(f)
}

#[test]
fn aggregation_does_not_silently_report_partial_totals() {
    assert_eq!(total(&[Some(2.0), Some(3.0)]), Some(5.0));
    assert_eq!(total(&[Some(2.0), None]), None);
    assert_eq!(total(&[]), None);
    assert_eq!(total(&[Some(f64::NAN)]), None);
}

#[test]
fn absent_memory_is_not_zero_percent() {
    assert_eq!(memory_percent(&Snapshot::default()).map(f), None);
}

#[test]
fn binary_units_and_uptime() {
    assert_eq!(bytes(d(1024.0 * 1024.0)), "1.0 MiB");
    assert_eq!(uptime(d(90061.0)), "1d 1h 1m");
    assert_eq!(uptime(d(f64::NAN)), "Unavailable");
}

#[test]
fn figures_have_a_form_and_say_where_they_are_missing() {
    assert_eq!(bytes(d(-5.0)), "0 B");
    assert_eq!(bytes(d(f64::INFINITY)), "Unavailable");
    assert_eq!(bytes(d(2f64.powi(70))), "1048576.0 PiB");
    assert_eq!(byte_count(1536), "1.5 KiB");
    assert_eq!(rate(Some(d(2048.0))), "2.0 KiB/s");
    assert_eq!(rate(None), "Unavailable");
    assert_eq!(percent(Some(d(12.34))), "12.3%");
    assert_eq!(percent(None), "Unavailable");
    assert_eq!(frequency(Some(d(3456.0))), "3.46 GHz");
    assert_eq!(frequency(None), "Clock unavailable");
    assert_eq!(temperature(Some(d(41.0))), "41.0 °C");
    assert_eq!(temperature(None), "Unavailable");
    assert_eq!(number(d(1.005), 2), "1.00");
    assert_eq!(number(d(f64::NAN), 2), "Unavailable");
    assert_eq!(uptime(d(3700.0)), "1h 1m");
    assert_eq!(uptime(d(-1.0)), "0h 0m");
    assert_eq!(link_state(Some(true)), "Up");
    assert_eq!(link_state(Some(false)), "Down");
    assert_eq!(link_state(None), "Unknown");
}

fn disk(name: &str, read: Option<f64>, write: Option<f64>) -> Disk {
    Disk {
        name: name.to_owned(),
        read_bytes_per_sec: read.map(d),
        write_bytes_per_sec: write.map(d),
        total_read_bytes: 0,
        total_write_bytes: 0,
    }
}

fn network(name: &str, received: Option<f64>, transmitted: Option<f64>) -> Network {
    Network {
        name: name.to_owned(),
        received_bytes_per_sec: received.map(d),
        transmitted_bytes_per_sec: transmitted.map(d),
        total_received_bytes: 0,
        total_transmitted_bytes: 0,
        is_up: None,
    }
}

fn logical_core(id: usize, percent: Option<f64>, frequency_mhz: Option<f64>) -> Core {
    Core { id, percent: percent.map(d), frequency_mhz: frequency_mhz.map(d) }
}

fn sensor(id: &str, is_cpu: bool, celsius: f64, critical: Option<f64>) -> Sensor {
    Sensor {
        id: id.to_owned(),
        label: id.to_owned(),
        celsius: d(celsius),
        critical_celsius: critical.map(d),
        is_cpu,
        cpu_temperature_source: CpuTemperatureSource::Other,
    }
}

#[test]
fn figures_are_taken_from_a_snapshot() {
    let snapshot = Snapshot {
        memory: Memory {
            total_bytes: 200,
            available_bytes: 150,
            used_bytes: 50,
            cached_bytes: 0,
            swap_total_bytes: 8,
            swap_used_bytes: 2,
        },
        cores: vec![
            logical_core(3, Some(30.0), Some(1000.0)),
            logical_core(5, None, Some(f64::NAN)),
            logical_core(7, Some(70.0), Some(2000.0)),
        ],
        disks: vec![disk("sda", Some(1.0), Some(2.0)), disk("sdb", Some(4.0), None)],
        networks: vec![network("eth0", Some(8.0), Some(16.0)), network("tun0", None, Some(32.0))],
        sensors: vec![
            sensor("a", true, 40.0, Some(100.0)),
            sensor("b", false, 90.0, Some(90.0)),
            sensor("c", true, 50.0, None),
        ],
        ..Snapshot::default()
    };
    assert_eq!(memory_percent(&snapshot).map(f), Some(25.0));
    assert_eq!(swap_percent(&snapshot).map(f), Some(25.0));
    assert_eq!(cpu_frequency(&snapshot).map(f), Some(1500.0));
    assert_eq!(cpu_temp(&snapshot).map(f), Some(50.0));
    assert_eq!(core_percent(&snapshot, 7).map(f), Some(70.0));
    assert_eq!(core_percent(&snapshot, 5).map(f), None);
    assert_eq!(core_percent(&snapshot, 4).map(f), None);
    assert_eq!(sensor_celsius(&snapshot, "b").map(f), Some(90.0));
    assert_eq!(sensor_celsius(&snapshot, "x").map(f), None);
    assert_eq!(disk_rate(&snapshot, "", false).map(f), Some(5.0));
    assert_eq!(disk_rate(&snapshot, "", true).map(f), None);
    assert_eq!(disk_rate(&snapshot, "sda", true).map(f), Some(2.0));
    assert_eq!(disk_rate(&snapshot, "sdx", true).map(f), None);
    assert_eq!(network_rate(&snapshot, "", false).map(f), None);
    assert_eq!(network_rate(&snapshot, "", true).map(f), Some(48.0));
    assert_eq!(network_rate(&snapshot, "eth0", false).map(f), Some(8.0));
    assert!(!critical(&snapshot.sensors[0]));
    assert!(critical(&snapshot.sensors[1]));
    assert!(!critical(&snapshot.sensors[2]));
    assert_eq!(
        threshold(&snapshot.sensors[0]),
        "Below reported critical threshold (100 °C)"
    );
    assert_eq!(threshold(&snapshot.sensors[1]), "At or above critical threshold (90 °C)");
    assert_eq!(threshold(&snapshot.sensors[2]), "Critical threshold not reported");
}

fn received(at: f64, cpu: f64) -> Sample {
    let snapshot = Snapshot { cpu_percent: Some(d(cpu)), ..Snapshot::default() };
    Sample::new(d(at), snapshot, ProcessSnapshot::default())
}

#[test]
fn a_sample_tells_of_the_system_before_the_processes() {
    let snapshot = Snapshot { warnings: vec!["system".to_owned()], ..Snapshot::default() };
    let processes = ProcessSnapshot { processes: vec![], warnings: vec!["process".to_owned()] };
    let sample = Sample::new(d(1.5), snapshot, processes);
    assert_eq!(sample.snapshot.warnings, ["system", "process"]);
    assert_eq!(sample.processes.warnings, ["process"]);
    assert_eq!(f(sample.at), 1.5);
}

#[test]
fn before_the_first_sample_figures_are_missing() {
    let none = no_sample();
    assert!(none.uptime_secs.is_nan());
    assert!(none.load.iter().all(|load| load.is_nan()));
    assert!(none.cores.is_empty());
}

#[test]
fn a_pause_freezes_the_display_and_resuming_begins_anew() {
    let mut monitor = Loadpeek::new();
    monitor.receive(received(1.0, 10.0));
    monitor.receive(received(2.0, 20.0));
    assert_eq!(monitor.history.len(), 2);
    monitor.page = Page::Disk;
    monitor.toggle_pause();
    assert!(monitor.paused);
    monitor.receive(received(3.0, 30.0));
    assert_eq!(monitor.history.len(), 2);
    assert_eq!(f(monitor.history.latest_time()), 2.0);
    let before = monitor.generation;
    monitor.toggle_pause();
    assert!(!monitor.paused);
    assert_eq!(monitor.history.len(), 0);
    assert_eq!(monitor.generation, before + 1);
    assert_eq!(monitor.page, Page::Disk);
}

#[test]
fn a_series_is_of_the_history_that_it_is_shown_for() {
    let mut monitor = Loadpeek::new();
    monitor.toggle_pause();
    monitor.toggle_pause();
    monitor.receive(received(5.0, 10.0));
    monitor.receive(received(7.5, 20.0));
    let series = monitor.series("CPU", BLUE, true, |snapshot| snapshot.cpu_percent);
    assert_eq!(series.name, "CPU");
    assert_eq!(series.color, BLUE);
    assert_eq!(series.history_generation, 1);
    assert_eq!(f(series.time_origin), 7.5);
    assert!(series.dashed);
    let points: Vec<[f64; 2]> = series.points.into_iter().map(|point| point.map(f)).collect();
    assert_eq!(points, [[-2.5, 10.0], [0.0, 20.0]]);
}

#[test]
fn devices_that_are_gone_are_no_longer_shown_alone() {
    let mut monitor = Loadpeek::new();
    monitor.disk = "sda".to_owned();
    monitor.network = "eth0".to_owned();
    let snapshot = Snapshot {
        disks: vec![disk("sda", None, None)],
        networks: vec![network("tun0", None, None)],
        ..Snapshot::default()
    };
    monitor.forget_missing_disk(&snapshot);
    monitor.forget_missing_network(&snapshot);
    assert_eq!(monitor.disk, "sda");
    assert_eq!(monitor.network, "");
    monitor.forget_missing_disk(&Snapshot::default());
    assert_eq!(monitor.disk, "");
}

#[test]
fn cores_are_found_by_a_part_of_their_number() {
    let mut monitor = Loadpeek::new();
    let cores = [1, 2, 12, 21, 30].map(|id| logical_core(id, None, None)).to_vec();
    let snapshot = Snapshot { cores, ..Snapshot::default() };
    let shown = |monitor: &Loadpeek| {
        monitor.shown_cores(&snapshot).iter().map(|core| core.id).collect::<Vec<_>>()
    };
    assert_eq!(shown(&monitor), [1, 2, 12, 21, 30]);
    monitor.core_filter = " 2 ".to_owned();
    assert_eq!(shown(&monitor), [2, 12, 21]);
    monitor.core_filter = "x".to_owned();
    assert!(shown(&monitor).is_empty());
}

#[test]
fn the_status_tells_what_is_shown() {
    let mut monitor = Loadpeek::new();
    monitor.receive(received(1.0, 10.0));
    monitor.receive(received(13.4, 20.0));
    assert_eq!(
        monitor.status(d(1.0)),
        "LAST 60 SECONDS  ·  12s collected  ·  2 samples"
    );
    monitor.page = Page::Processes;
    assert_eq!(monitor.status(d(2.5)), "CURRENT PROCESSES  ·  refresh every 2.5s");
    monitor.toggle_pause();
    assert_eq!(monitor.status(d(2.5)), "PAUSED PROCESS SNAPSHOT");
}

#[test]
fn pages_have_names_and_colors() {
    assert_eq!(Page::default(), Page::Summary);
    let names = Page::ALL.map(|page| page.name());
    assert_eq!(
        names,
        ["Summary", "CPU", "Memory", "Disk", "Network", "Thermals", "Processes"]
    );
    assert_eq!(Page::Disk.color(), GREEN);
    assert_eq!(Page::Summary.subtitle(), "Your system, at a glance.");
}

#[test]
fn samples_are_taken_at_the_interval_and_at_once_after_a_pause() {
    let mut schedule = Schedule::new(d(1.5), 10 * SECOND);
    assert!(schedule.is_due(10 * SECOND));
    schedule.sampled(10 * SECOND);
    assert!(!schedule.is_due(11 * SECOND));
    assert_eq!(schedule.timeout(11 * SECOND), SECOND / 2);
    assert!(schedule.is_due(11 * SECOND + SECOND / 2));
    assert!(!schedule.obey(Command::Interval(d(99.0)), 20 * SECOND));
    assert_eq!(schedule.next, 25 * SECOND);
    assert!(!schedule.obey(Command::Interval(d(0.1)), 20 * SECOND));
    assert_eq!(schedule.next, 20 * SECOND + SECOND / 2);
    assert!(!schedule.obey(Command::Pause(true), 30 * SECOND));
    assert!(!schedule.is_due(99 * SECOND));
    assert_eq!(schedule.timeout(99 * SECOND), PAUSE);
    assert!(!schedule.obey(Command::Interval(d(1.0)), 40 * SECOND));
    assert!(schedule.paused);
    assert!(schedule.obey(Command::Pause(false), 50 * SECOND));
    assert!(schedule.is_due(50 * SECOND));
}

#[test]
fn every_history_has_a_generation_of_its_own() {
    let mut monitor = Loadpeek::new();
    let mut seen = Vec::new();
    for _ in 0..5 {
        let series = monitor.series("CPU", BLUE, false, |snapshot| snapshot.cpu_percent);
        assert!(!seen.contains(&series.history_generation));
        seen.push(series.history_generation);
        monitor.toggle_pause();
        assert_eq!(monitor.generation, *seen.last().unwrap());
        monitor.toggle_pause();
    }
    assert_eq!(seen, [0, 1, 2, 3, 4]);
    monitor.generation = u64::MAX;
    monitor.toggle_pause();
    monitor.toggle_pause();
    assert_eq!(monitor.generation, 0);
}
