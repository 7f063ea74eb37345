use loadpeek::counters::{
    counter_rate, cpu_percent, disk_sequence, network_ifindex, parse_cpu_number, parse_cpu_times,
    parse_cpuinfo, parse_diskstats, parse_memory, parse_networks, CpuTimes,
};
use loadpeek::double::Double;

fn d(value: f64) -> Double {
    Double::from_bits(value.to_bits())
}

fn f(value: Double) -> f64 {
    f64::from_bits(value.bits)
}

fn share(previous: CpuTimes, current: CpuTimes) -> Option<f64> {
    cpu_percent(previous, current).map(f)
}

fn rate(previous: u64, current: u64, elapsed: Option<f64>) -> Option<f64> {
    counter_rate(previous, current, elapsed.map(d)).map(f)
}

#[test]
fn cpu_guest_time_is_not_counted_twice() {
    let before = parse_cpu_times("cpu 100 20 30 1000 0 0 0 0 40 10");
    let after = parse_cpu_times("cpu 150 30 40 1030 0 0 0 0 80 20");
    assert_eq!(
        share(before.get("cpu").unwrap(), after.get("cpu").unwrap()),
        Some(70.0)
    );
}

#[test]
fn cpu_counter_reset_and_unchanged_sample_are_missing() {
    let counters = CpuTimes([100, 0, 20, 50, 0, 0, 0, 0]);
    assert_eq!(share(counters, counters), None);
    assert_eq!(share(counters, CpuTimes([5, 0, 2, 10, 0, 0, 0, 0])), None);
}

#[test]
fn cpu_iowait_decrease_does_not_invalidate_other_counters() {
    let before = CpuTimes([100, 0, 20, 100, 15, 0, 0, 0]);
    let after = CpuTimes([120, 0, 30, 170, 10, 0, 0, 0]);
    assert_eq!(share(before, after), Some(30.0));
}

#[test]
fn cpu_parser_ignores_other_stat_fields_and_malformed_rows() {
    let counters = parse_cpu_times(
        "cpu 1 2 3 4\ncpu0 1 2 3 4 5 6 7 8\ncpu4 1 bad 2 3\ncpufreq 10 20 30 40\nintr 500",
    );
    assert_eq!(counters.len(), 2);
    assert_eq!(counters.get("cpu").unwrap().0, [1, 2, 3, 4, 0, 0, 0, 0]);
}

#[test]
fn a_busy_share_stays_between_nothing_and_everything() {
    let nothing = CpuTimes([0; 8]);
    assert_eq!(share(nothing, CpuTimes([0, 0, 0, 9, 1, 0, 0, 0])), Some(0.0));
    assert_eq!(share(nothing, CpuTimes([9, 0, 0, 0, 0, 0, 0, 1])), Some(100.0));
    assert_eq!(share(nothing, CpuTimes([u64::MAX; 8])), Some(75.0));
    assert_eq!(share(nothing, CpuTimes([1, 0, 0, 2, 0, 0, 0, 0])), Some(1.0 / 3.0 * 100.0));
}

#[test]
fn cpu_numbers_follow_the_prefix() {
    let number = |name: &str| parse_cpu_number(&name.chars().collect::<Vec<_>>());
    assert_eq!(number("cpu12"), Some(12));
    assert_eq!(number("cpu"), None);
    assert_eq!(number("cpufreq"), None);
    assert_eq!(number("gpu1"), None);
}

#[test]
fn rates_use_actual_elapsed_and_preserve_missing_samples() {
    assert_eq!(rate(100, 300, Some(0.5)), Some(400.0));
    assert_eq!(rate(100, 300, Some(5.0)), Some(40.0));
    assert_eq!(rate(100, 100, Some(1.0)), Some(0.0));
    assert_eq!(rate(300, 100, Some(1.0)), None);
    assert_eq!(rate(100, 300, Some(0.0)), None);
    assert_eq!(rate(100, 300, Some(f64::NAN)), None);
    assert_eq!(rate(100, 300, None), None);
}

#[test]
fn rates_that_are_no_numbers_are_missing() {
    assert_eq!(rate(0, u64::MAX, Some(1e-300)), None);
    assert_eq!(rate(0, 1, Some(f64::INFINITY)), None);
    assert_eq!(rate(0, 1, Some(-1.0)), None);
}

#[test]
fn disk_sectors_are_always_512_bytes() {
    let counters = parse_diskstats(
        "259 0 nvme0n1 255999 814 12369153 47919 996852 81 36123024 425995 0 301795 580470",
    );
    assert_eq!(counters.get("nvme0n1").unwrap().first, 12_369_153 * 512);
    assert_eq!(counters.get("nvme0n1").unwrap().second, 36_123_024 * 512);
    assert!(parse_diskstats("8 0 bad short line").is_empty());
}

#[test]
fn disk_counters_that_cannot_be_counted_in_bytes_are_left_out() {
    assert!(parse_diskstats("8 0 sda 1 0 36028797018963968 0 2 0 30 0 0 0 0").is_empty());
    let counters = parse_diskstats("8 0 sda 1 0 36028797018963967 0 2 0 30 0 0 0 0");
    assert_eq!(counters.get("sda").unwrap().first, 36_028_797_018_963_967 * 512);
}

#[test]
fn network_parser_separates_receive_transmit_and_omits_loopback() {
    let counters = parse_networks(
        "Inter-| Receive | Transmit\n lo: 99 1 0 0 0 0 0 0 99 1 0 0 0 0 0 0\n eth0: 1024 2 0 0 0 0 0 0 2048 4 0 0 0 0 0 0\n bad: 1 2",
    );
    assert_eq!(counters.len(), 1);
    assert_eq!(counters.get("eth0").unwrap().first, 1024);
    assert_eq!(counters.get("eth0").unwrap().second, 2048);
}

#[test]
fn an_interface_name_may_hold_a_colon() {
    let counters = parse_networks("eth0:1: 1 0 0 0 0 0 0 0 2 0 0 0 0 0 0 0");
    assert_eq!(counters.get("eth0:1").unwrap().second, 2);
}

#[test]
fn memory_uses_available_not_free_and_converts_kibibytes() {
    let (memory, estimated) = parse_memory("MemTotal: 1000 kB\nMemAvailable: 400 kB\nMemFree: 100 kB\nCached: 300 kB\nSReclaimable: 50 kB\nShmem: 20 kB\nSwapTotal: 200 kB\nSwapFree: 70 kB").unwrap();
    assert!(!estimated);
    assert_eq!(memory.total_bytes, 1_024_000);
    assert_eq!(memory.used_bytes, 600 * 1024);
    assert_eq!(memory.cached_bytes, 330 * 1024);
    assert_eq!(memory.swap_used_bytes, 130 * 1024);
}

#[test]
fn memory_fallback_and_inconsistent_counters_are_safe() {
    let (memory, estimated) =
        parse_memory("MemTotal: 100 kB\nMemFree: 40 kB\nBuffers: 10 kB\nCached: 80 kB").unwrap();
    assert!(estimated);
    assert_eq!(memory.available_bytes, memory.total_bytes);
    assert_eq!(memory.used_bytes, 0);
    assert!(parse_memory("MemFree: 500 kB").is_none());
    assert!(parse_memory("MemTotal: invalid kB").is_none());
}

#[test]
fn memory_adds_up_and_needs_what_it_is_estimated_from() {
    let (memory, _) = parse_memory("MemTotal: 64 kB\nMemAvailable: 10 kB\nCached: 900 kB").unwrap();
    assert_eq!(memory.used_bytes + memory.available_bytes, memory.total_bytes);
    assert_eq!(memory.cached_bytes, memory.total_bytes);
    assert!(parse_memory("MemTotal: 64 kB").is_none());
    assert!(parse_memory("MemTotal: 0 kB\nMemFree: 0 kB").is_none());
    assert!(parse_memory("MemTotal: 64 MB\nMemFree: 1 kB").is_none());
    assert!(parse_memory("MemTotal: 18014398509481984 kB\nMemFree: 1 kB").is_none());
}

#[test]
fn cpuinfo_preserves_sparse_core_ids_and_rejects_nan() {
    let (model, frequencies) = parse_cpuinfo(
        "processor : 0\nmodel name : Example CPU\ncpu MHz : 1800.5\n\nprocessor : 8\ncpu MHz : NaN\n\nprocessor : 12\ncpu MHz : 2400\n",
    );
    assert_eq!(model, "Example CPU");
    assert_eq!(frequencies.get(&0), Some(&d(1800.5)));
    assert!(!frequencies.contains_key(&8));
    assert_eq!(frequencies.get(&12), Some(&d(2400.0)));
}

#[test]
fn cpuinfo_without_a_model_has_a_general_one() {
    assert_eq!(parse_cpuinfo("").0, "Linux processor");
    assert_eq!(parse_cpuinfo("Hardware : Board\nmodel name : Later").0, "Board");
}

#[test]
fn identities_are_numbers_above_zero() {
    let text = |text: &str| Some(text.to_owned());
    assert_eq!(disk_sequence(&text(" 10\n")), Some(10));
    assert_eq!(network_ifindex(&text("7\n")), Some(7));
    for invalid in ["", "0", "-1", "bad"] {
        assert_eq!(disk_sequence(&text(invalid)), None);
        assert_eq!(network_ifindex(&text(invalid)), None);
    }
    assert_eq!(network_ifindex(&text("4294967296")), None);
    assert_eq!(disk_sequence(&text("4294967296")), Some(4_294_967_296));
    assert_eq!(disk_sequence(&None), None);
}
