use loadpeek::double::Double;
use loadpeek::processes::{
    cpu_percent, effective_uid, format_command, parse_pid_directory, parse_shared_pages, parse_stat,
    parse_uptime, parse_users, process_disappeared, read_stat, sanitize, Entry, Failure,
    PreviousProcess, ProcessCollector, ProcessFiles, ProcessReadings, ProcessSnapshot, ProcessStat,
    MAX_PROC_FILE_BYTES,
};
use std::collections::{BTreeMap, HashMap};

const MISSING: Failure = Failure { not_found: true, os_error: Some(2) };
const SECOND: u64 = 1_000_000_000;

fn d(value: f64) -> Double {
    Double::from_bits(value.to_bits())
}

fn f(value: Double) -> f64 {
    f64::from_bits(value.bits)
}

/// The files of processes, by directory and by name.
struct Fixture {
    uptime: Option<Vec<u8>>,
    directories: BTreeMap<String, BTreeMap<String, Vec<u8>>>,
    now: u64,
}

impl Fixture {
    fn new() -> Self {
        Fixture {
            uptime: Some(b"1000.00 1234.00\n".to_vec()),
            directories: BTreeMap::new(),
            now: 0,
        }
    }

    fn process(&mut self, pid: u32, cpu_ticks: u64, start_ticks: u64) {
        let mut files = BTreeMap::new();
        let stat = stat_line(pid, "worker ) test", cpu_ticks, start_ticks);
        files.insert("stat".to_owned(), stat.into_bytes());
        files.insert("status".to_owned(), b"Uid:\t1000\t1001\t1002\t1003\n".to_vec());
        files.insert("statm".to_owned(), b"2000 25 10 0 0 0 0\n".to_vec());
        files.insert("cmdline".to_owned(), b"/bin/worker\0--test\0".to_vec());
        self.directories.insert(pid.to_string(), files);
    }

    fn write(&mut self, pid: &str, name: &str, bytes: &[u8]) {
        let files = self.directories.get_mut(pid).unwrap();
        files.insert(name.to_owned(), bytes.to_vec());
    }

    fn readings(&self) -> ProcessReadings {
        let entries = self
            .directories
            .iter()
            .map(|(directory, files)| {
                let stat = || files.get("stat").cloned().ok_or(MISSING);
                Entry::Listed(ProcessFiles {
                    directory: Some(directory.clone()),
                    stat: stat(),
                    status: files.get("status").cloned(),
                    statm: files.get("statm").cloned(),
                    cmdline: files.get("cmdline").cloned(),
                    stat_again: stat(),
                    sampled_at: self.now,
                })
            })
            .collect();
        ProcessReadings { uptime: self.uptime.clone(), entries: Some(entries) }
    }

    fn collector(&self) -> ProcessCollector {
        ProcessCollector {
            ticks_per_second: Some(d(250.0)),
            page_bytes: Some(16_384),
            users: HashMap::from([(1001, "effective-user".into())]),
            previous: HashMap::new(),
        }
    }

    fn sample_at(&mut self, collector: &mut ProcessCollector, total: u64, now: u64) -> ProcessSnapshot {
        self.now = now;
        collector.sample(total, &self.readings())
    }
}

fn stat_line(pid: u32, name: &str, cpu_ticks: u64, start_ticks: u64) -> String {
    // Fields 3..24, including large child CPU times to catch double counting.
    format!(
        "{pid} ({name}) S 7 0 0 0 0 0 0 0 0 0 {} 5 9999 8888 -5 -10 4 0 {start_ticks} 1048576 25\n",
        cpu_ticks - 5
    )
}

fn share(previous: PreviousProcess, stat: &ProcessStat, sampled_at: u64, ticks: f64) -> Option<f64> {
    cpu_percent(previous, stat, sampled_at, d(ticks)).map(f)
}

#[test]
fn stat_handles_parentheses_spaces_and_newlines_in_comm() {
    let text = stat_line(42, "odd ) (name\n)", 255, 500);
    let stat = parse_stat(&text, 42).unwrap();
    assert_eq!(stat.name, "odd ) (name\n)");
    assert_eq!(stat.state, 'S');
    assert_eq!(stat.ppid, 7);
    assert_eq!(stat.cpu_ticks, 255);
    assert_eq!(stat.priority, -5);
    assert_eq!(stat.nice, -10);
    assert_eq!(stat.threads, 4);
    assert_eq!(stat.start_time_ticks, 500);
    assert_eq!(stat.virtual_bytes, Some(1_048_576));
    assert_eq!(stat.resident_pages, Some(25));
    assert!(parse_stat(&text, 99).is_none());
    assert!(parse_stat("42 (cut off) R 1", 42).is_none());
    assert!(parse_stat("42 no parentheses", 42).is_none());
}

#[test]
fn memory_that_is_no_count_of_pages_is_missing_from_a_stat() {
    let stat = parse_stat("1 (a) R 1 0 0 0 0 0 0 0 0 0 1 2 0 0 20 0 1 0 9 x -3", 1).unwrap();
    assert_eq!(stat.virtual_bytes, None);
    assert_eq!(stat.resident_pages, None);
    for (text, broken) in [
        ("1 (a) RS 1 0 0 0 0 0 0 0 0 0 1 2 0 0 20 0 1 0 9 1 1", "state"),
        ("1 (a) 5 1 0 0 0 0 0 0 0 0 0 1 2 0 0 20 0 1 0 9 1 1", "state"),
        ("1 )a( R 1 0 0 0 0 0 0 0 0 0 1 2 0 0 20 0 1 0 9 1 1", "name"),
        ("1 (a) R 1 0 0 0 0 0 0 0 0 0 18446744073709551615 2 0 0 20 0 1 0 9 1 1", "ticks"),
    ] {
        assert!(parse_stat(text, 1).is_none(), "{broken}");
    }
}

#[test]
fn cpu_uses_real_elapsed_time_and_does_not_clamp_multicore_usage() {
    let now = 7 * SECOND;
    let previous = PreviousProcess {
        start_time_ticks: 500,
        cpu_ticks: 255,
        sampled_at: now,
    };
    let stat = parse_stat(&stat_line(42, "worker", 505, 500), 42).unwrap();
    assert_eq!(share(previous, &stat, now + SECOND / 2, 250.0), Some(200.0));
    assert_eq!(share(previous, &stat, now + 5 * SECOND, 250.0), Some(20.0));
    assert!(share(previous, &stat, now, 250.0).is_none());
    assert!(share(previous, &stat, now + SECOND, 0.0).is_none());
}

#[test]
fn cpu_resets_baseline_for_reused_pids_and_decreasing_counters() {
    let now = 7 * SECOND;
    let previous = PreviousProcess {
        start_time_ticks: 500,
        cpu_ticks: 255,
        sampled_at: now,
    };
    let reused = parse_stat(&stat_line(42, "new", 555, 600), 42).unwrap();
    let reset = parse_stat(&stat_line(42, "old", 105, 500), 42).unwrap();
    assert!(share(previous, &reused, now + SECOND, 250.0).is_none());
    assert!(share(previous, &reset, now + SECOND, 250.0).is_none());
}

#[test]
fn sample_uses_kernel_units_effective_uid_and_physical_memory() {
    let mut fixture = Fixture::new();
    fixture.process(42, 255, 500);
    let mut collector = fixture.collector();
    let first = fixture.sample_at(&mut collector, 1_638_400, SECOND);
    assert!(first.warnings.is_empty());
    let process = &first.processes[0];
    assert_eq!(process.pid, 42);
    assert_eq!(process.uid, Some(1001));
    assert_eq!(process.user, "effective-user");
    assert_eq!(process.resident_bytes, Some(409_600));
    assert_eq!(process.shared_bytes, Some(163_840));
    assert_eq!(process.virtual_bytes, Some(1_048_576));
    assert_eq!(process.memory_percent.map(f), Some(25.0));
    assert_eq!(f(process.cpu_time_secs), 1.02);
    assert_eq!(process.elapsed_secs.map(f), Some(998.0));
    assert_eq!(process.cpu_percent.map(f), None);
    assert_eq!(process.command, "/bin/worker --test");
}

#[test]
fn sample_cleans_up_exits_and_treats_reused_pids_as_new() {
    let mut fixture = Fixture::new();
    fixture.process(42, 255, 500);
    let mut collector = fixture.collector();
    let now = 7 * SECOND;
    fixture.sample_at(&mut collector, 1024, now);
    fixture.process(42, 505, 500);
    let second = fixture.sample_at(&mut collector, 1024, now + SECOND);
    assert_eq!(second.processes[0].cpu_percent.map(f), Some(100.0));
    fixture.process(42, 755, 600);
    let reused = fixture.sample_at(&mut collector, 1024, now + 2 * SECOND);
    assert_eq!(reused.processes[0].cpu_percent.map(f), None);
    fixture.directories.remove("42");
    // A directory can still be in readdir while its stat has disappeared.
    fixture.directories.insert("43".to_owned(), BTreeMap::new());
    let exited = fixture.sample_at(&mut collector, 1024, now + 3 * SECOND);
    assert!(exited.processes.is_empty());
    assert!(exited.warnings.is_empty());
    assert!(collector.previous.is_empty());
}

#[test]
fn live_process_with_missing_optional_files_stays_visible_with_one_warning() {
    let mut fixture = Fixture::new();
    fixture.process(42, 255, 500);
    for filename in ["status", "statm", "cmdline"] {
        fixture.directories.get_mut("42").unwrap().remove(filename);
    }
    let mut collector = fixture.collector();
    let snapshot = fixture.sample_at(&mut collector, 0, SECOND);
    assert_eq!(snapshot.processes.len(), 1);
    assert_eq!(snapshot.warnings.len(), 1);
    assert!(snapshot.warnings[0].contains("1 processes have incomplete details"));
    let process = &snapshot.processes[0];
    assert_eq!(process.uid, None);
    assert_eq!(process.user, "Unavailable");
    assert_eq!(process.shared_bytes, None);
    assert_eq!(process.memory_percent.map(f), None);
    assert_eq!(process.command, "[worker ) test]");
}

#[test]
fn exit_or_pid_reuse_between_proc_file_reads_does_not_mix_processes() {
    for reused in [false, true] {
        let mut fixture = Fixture::new();
        fixture.process(42, 255, 500);
        let mut collector = fixture.collector();
        fixture.sample_at(&mut collector, 1024, SECOND);
        // The process is gone, or another has its number, by the time its
        // identity is read again.
        let mut readings = fixture.readings();
        if let Some(Entry::Listed(files)) = readings.entries.as_mut().unwrap().first_mut() {
            if reused {
                files.stat_again = Ok(stat_line(42, "replacement", 755, 600).into_bytes());
            } else {
                files.cmdline = None;
                files.stat_again = Err(MISSING);
            }
        }
        let snapshot = collector.sample(1024, &readings);
        assert!(snapshot.processes.is_empty());
        assert!(snapshot.warnings.is_empty());
        assert!(collector.previous.is_empty());
    }
}

#[test]
fn local_passwd_lookup_uses_numeric_fallback() {
    let users =
        parse_users("root:x:0:0:root:/root:/bin/sh\nalice:x:1001:1001::/:/bin/sh\ninvalid\n");
    assert_eq!(users.get(&1001).map(String::as_str), Some("alice"));
    assert_eq!(users.len(), 2);
    let mut fixture = Fixture::new();
    fixture.process(42, 255, 500);
    let mut collector = fixture.collector();
    collector.users.clear();
    assert_eq!(fixture.sample_at(&mut collector, 0, SECOND).processes[0].user, "1001");
}

#[test]
fn the_first_name_of_a_user_is_kept_and_made_harmless() {
    let users = parse_users("one\u{202e}:x:7\ntwo:x:7\n:x:8\nthree:x:nine\n");
    assert_eq!(users, HashMap::from([(7, "one\u{fffd}".to_owned())]));
}

#[test]
fn command_fallback_and_sanitization_are_safe_for_display() {
    assert_eq!(format_command(Some(b""), "kworker"), "[kworker]");
    assert_eq!(format_command(None, "gone"), "[gone]");
    assert_eq!(format_command(Some(b"\0\0"), "zombie"), "[zombie]");
    assert_eq!(
        format_command(Some(b"tool\0\0a\nb\t\x1b\0\xff\0"), "tool"),
        "tool \"\" a b   \u{fffd}"
    );
    assert_eq!(sanitize("a\u{202e}b\u{2028}c"), "a\u{fffd}b c");
    let long = vec![b'x'; MAX_PROC_FILE_BYTES + 1];
    let command = format_command(Some(&long), "long");
    assert!(command.ends_with(" …"));
    assert_eq!(command.chars().count(), MAX_PROC_FILE_BYTES + 2);
}

#[test]
fn what_is_harmless_stays_as_it_is() {
    let text = "tab\there\u{2067}and\u{85}there ü";
    let once = sanitize(text);
    assert_eq!(once, "tab here\u{fffd}and there ü");
    assert_eq!(sanitize(&once), once);
}

#[test]
fn bad_units_and_malformed_stat_do_not_invent_measurements() {
    let mut fixture = Fixture::new();
    fixture.process(42, 255, 500);
    let mut collector = fixture.collector();
    collector.ticks_per_second = None;
    collector.page_bytes = None;
    let snapshot = fixture.sample_at(&mut collector, 1_000_000, SECOND);
    assert_eq!(snapshot.warnings.len(), 2);
    let process = &snapshot.processes[0];
    assert_eq!(process.resident_bytes, None);
    assert_eq!(process.memory_percent.map(f), None);
    assert_eq!(process.elapsed_secs.map(f), None);
    assert!(process.cpu_time_secs.is_nan());
    fixture.write("42", "stat", b"malformed");
    let malformed = fixture.sample_at(&mut collector, 1_000_000, 2 * SECOND);
    assert!(malformed.processes.is_empty());
    assert!(malformed
        .warnings
        .iter()
        .any(|warning| warning.contains("could not be read")));
    assert!(collector.previous.is_empty());
}

#[test]
fn what_keeps_a_sample_from_being_whole_is_told_in_order() {
    let mut collector = ProcessCollector::new(0, -1, &None);
    assert_eq!(collector.ticks_per_second.map(f), None);
    assert_eq!(collector.page_bytes, None);
    assert!(collector.users.is_empty());
    let units = [
        "The system clock tick rate is unavailable; process CPU times and rates cannot be measured.",
        "The system page size is unavailable; process resident and shared memory cannot be measured.",
        "System uptime is unavailable; process elapsed times cannot be measured.",
    ];
    let nothing = collector.sample(0, &ProcessReadings { uptime: None, entries: None });
    assert_eq!(nothing.warnings[..3], units);
    assert_eq!(
        nothing.warnings[3..],
        ["Processes are unavailable because the process directory cannot be read."]
    );
    let entries = Some(vec![Entry::Failed]);
    let failed = collector.sample(0, &ProcessReadings { uptime: None, entries });
    assert_eq!(
        failed.warnings[3..],
        ["1 process entries could not be read. Permissions or procfs restrictions may limit the list."]
    );
}

#[test]
fn a_directory_that_cannot_be_read_forgets_what_was_measured() {
    let mut fixture = Fixture::new();
    fixture.process(42, 255, 500);
    let mut collector = fixture.collector();
    fixture.sample_at(&mut collector, 0, SECOND);
    assert_eq!(
        collector.previous.get(&42),
        Some(&PreviousProcess { start_time_ticks: 500, cpu_ticks: 255, sampled_at: SECOND })
    );
    let gone = collector.sample(0, &ProcessReadings { uptime: fixture.uptime.clone(), entries: None });
    assert_eq!(gone.warnings.len(), 1);
    assert!(collector.previous.is_empty());
}

#[test]
fn the_units_of_a_system_are_taken_where_they_can_be() {
    let passwd = Some(b"root:x:0:0::/root:/bin/sh\n\xff:x:5:5::/:/bin/sh\n".to_vec());
    let collector = ProcessCollector::new(100, 4096, &passwd);
    assert_eq!(collector.ticks_per_second.map(f), Some(100.0));
    assert_eq!(collector.page_bytes, Some(4096));
    assert_eq!(
        collector.users,
        HashMap::from([(0, "root".to_owned()), (5, "\u{fffd}".to_owned())])
    );
    assert!(collector.previous.is_empty());
}

#[test]
fn a_process_that_starts_behind_the_uptime_has_lived_for_no_time() {
    let mut fixture = Fixture::new();
    fixture.process(42, 255, 500_000);
    let mut collector = fixture.collector();
    let snapshot = fixture.sample_at(&mut collector, 0, SECOND);
    assert_eq!(snapshot.processes[0].elapsed_secs.map(f), Some(0.0));
}

#[test]
fn pid_directories_are_strictly_numeric() {
    assert_eq!(parse_pid_directory("42"), Some(42));
    for name in ["", "0", "self", "thread-self", "+42", "-42", "42junk"] {
        assert_eq!(parse_pid_directory(name), None);
    }
}

#[test]
fn a_missing_file_or_process_means_that_it_is_gone() {
    assert!(process_disappeared(&MISSING));
    let no_process = Failure { not_found: false, os_error: Some(libc::ESRCH) };
    assert!(process_disappeared(&no_process));
    let denied = Failure { not_found: false, os_error: Some(libc::EACCES) };
    assert!(!process_disappeared(&denied));
    assert!(!process_disappeared(&Failure { not_found: false, os_error: None }));
    assert!(matches!(read_stat(&Err(no_process), 1), Err(failure) if failure == no_process));
    let bytes = stat_line(9, "\u{fffd}", 5, 1).into_bytes();
    assert_eq!(read_stat(&Ok(bytes), 9).unwrap().name, "\u{fffd}");
    assert!(matches!(
        read_stat(&Ok(b"malformed".to_vec()), 9),
        Err(Failure { not_found: false, os_error: None })
    ));
}

#[test]
fn numbers_are_found_in_the_files_of_a_process() {
    assert_eq!(effective_uid("Name:\tx\nUid:\t1\t2\t3\t4\n"), Some(2));
    assert_eq!(effective_uid("Uid:\t1\nUid:\t1\t7\n"), Some(7));
    assert_eq!(effective_uid("Gid:\t1\t2\t3\t4\n"), None);
    assert_eq!(parse_shared_pages("1 2 3 4"), Some(3));
    assert_eq!(parse_shared_pages("1 2"), None);
    assert_eq!(parse_uptime("12.5 1").map(f), Some(12.5));
    assert_eq!(parse_uptime("-1").map(f), None);
    assert_eq!(parse_uptime("inf").map(f), None);
    assert_eq!(parse_uptime("").map(f), None);
}

#[test]
fn a_share_is_known_as_soon_as_any_time_has_passed() {
    let now = 7 * SECOND;
    let previous = PreviousProcess {
        start_time_ticks: 500,
        cpu_ticks: 255,
        sampled_at: now,
    };
    let nanosecond = std::time::Duration::from_nanos(1).as_secs_f64();
    let busy = parse_stat(&stat_line(42, "worker", 505, 500), 42).unwrap();
    assert_eq!(share(previous, &busy, now + 1, 250.0), Some(250.0 / 250.0 / nanosecond * 100.0));
    assert_eq!(share(previous, &busy, now - 1, 250.0), None);
    let idle = parse_stat(&stat_line(42, "worker", 255, 500), 42).unwrap();
    assert_eq!(share(previous, &idle, now + 1, 250.0), Some(0.0));
}

#[test]
fn the_last_sample_alone_is_measured_against() {
    let mut fixture = Fixture::new();
    fixture.process(42, 255, 500);
    let mut collector = fixture.collector();
    fixture.sample_at(&mut collector, 1024, SECOND);
    fixture.process(42, 300, 500);
    let again = fixture.sample_at(&mut collector, 1024, SECOND);
    assert_eq!(again.processes[0].cpu_percent, None);
    fixture.process(42, 425, 500);
    let later = fixture.sample_at(&mut collector, 1024, 3 * SECOND);
    assert_eq!(later.processes[0].cpu_percent.map(f), Some(25.0));
    collector.ticks_per_second = None;
    fixture.process(42, 525, 500);
    let unmeasured = fixture.sample_at(&mut collector, 1024, 4 * SECOND);
    assert_eq!(unmeasured.processes[0].cpu_percent, None);
}

#[test]
fn names_and_commands_in_utf8_are_shown_as_they_are() {
    let mut fixture = Fixture::new();
    fixture.process(42, 255, 500);
    fixture.write("42", "cmdline", "/bin/größe\0--naïve\0".as_bytes());
    let mut collector = fixture.collector();
    let sample = fixture.sample_at(&mut collector, 1024, SECOND);
    assert_eq!(sample.processes[0].command, "/bin/größe --naïve");
}
