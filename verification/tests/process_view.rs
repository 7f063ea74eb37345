use loadpeek::double::Double;
use loadpeek::process_view::{
    accessible_row, command, compare_processes, count_in_state, cpu_time, details, elapsed_time,
    exact_memory, filtered_processes, holds_every, memory, navigation_target, optional_cmp, percent,
    selected_process, state_name, Column, NavigationKey, ProcessKey, ProcessView, StateFilter,
};
use loadpeek::processes::{Process, ProcessSnapshot};
use std::cmp::Ordering;

fn d(value: f64) -> Double {
    Double::from_bits(value.to_bits())
}

fn process(pid: u32, cpu: Option<f64>) -> Process {
    Process {
        pid,
        ppid: 1,
        uid: Some(1000),
        user: "alice".into(),
        state: 'S',
        priority: 20,
        nice: 0,
        threads: 1,
        virtual_bytes: Some(2048),
        resident_bytes: Some(1024),
        shared_bytes: Some(512),
        cpu_percent: cpu.map(d),
        memory_percent: Some(d(1.0)),
        cpu_time_secs: d(125.12),
        elapsed_secs: Some(d(900.0)),
        name: "worker".into(),
        command: "/usr/bin/worker --serve".into(),
        start_time_ticks: 100,
    }
}

fn snapshot(processes: Vec<Process>) -> ProcessSnapshot {
    ProcessSnapshot { processes, warnings: vec![] }
}

fn pids(processes: &[&Process]) -> Vec<u32> {
    processes.iter().map(|process| process.pid).collect()
}

#[test]
fn cpu_sort_is_numeric_and_missing_stays_last_in_both_directions() {
    let mut processes = [
        process(4, None),
        process(3, Some(9.0)),
        process(2, Some(120.0)),
        process(1, Some(9.0)),
    ];
    processes.sort_by(|a, b| compare_processes(a, b, Column::Cpu, true));
    assert_eq!(processes.map(|process| process.pid), [2, 1, 3, 4]);
    let mut processes = [
        process(4, None),
        process(3, Some(9.0)),
        process(2, Some(120.0)),
        process(1, Some(9.0)),
    ];
    processes.sort_by(|a, b| compare_processes(a, b, Column::Cpu, false));
    assert_eq!(processes.map(|process| process.pid), [1, 3, 2, 4]);
}

#[test]
fn memory_sort_uses_bytes_and_handles_missing_and_nonfinite_values() {
    let mut small = process(1, Some(f64::NAN));
    let mut large = process(2, Some(0.0));
    small.resident_bytes = Some(900);
    large.resident_bytes = Some(1024 * 1024);
    assert_eq!(
        compare_processes(&small, &large, Column::Resident, false),
        Ordering::Less
    );
    assert_eq!(
        compare_processes(&small, &large, Column::Cpu, true),
        Ordering::Greater
    );
    small.resident_bytes = None;
    for descending in [false, true] {
        assert_eq!(
            compare_processes(&small, &large, Column::Resident, descending),
            Ordering::Greater
        );
    }
}

#[test]
fn all_equal_column_values_use_ascending_pid_tiebreak() {
    let first = process(1, Some(9.0));
    let second = process(2, Some(9.0));
    for column in Column::ALL
        .into_iter()
        .filter(|column| *column != Column::Pid)
    {
        for descending in [false, true] {
            assert_eq!(
                compare_processes(&first, &second, column, descending),
                Ordering::Less
            );
        }
    }
}

#[test]
fn filtering_matches_pid_user_name_and_command_case_insensitively() {
    let mut other = process(912, Some(0.0));
    other.user = "bob".into();
    other.name = "database".into();
    other.command = "/usr/bin/postgres --port=5432".into();
    other.state = 'R';
    let snapshot = snapshot(vec![process(123, Some(0.0)), other]);
    for query in ["912", "BOB", "DATABASE", "5432", "  bob  POSTGRES "] {
        let filtered = filtered_processes(&snapshot, query, StateFilter::All);
        assert_eq!(pids(&filtered), vec![912]);
    }
    assert!(filtered_processes(&snapshot, "bob", StateFilter::Sleeping).is_empty());
    assert_eq!(
        filtered_processes(&snapshot, "  ", StateFilter::All).len(),
        2
    );
    assert_eq!(
        filtered_processes(&snapshot, "", StateFilter::Running)[0].pid,
        912
    );
}

#[test]
fn state_filter_classifies_idle_and_tracing_without_losing_other_states() {
    assert!(StateFilter::Sleeping.matches('I'));
    assert!(StateFilter::Stopped.matches('t'));
    assert!(StateFilter::Other.matches('X'));
    assert!(!StateFilter::Sleeping.matches('D'));
    for state in ['R', 'S', 'D', 'T', 't', 'Z', 'I', 'X', '?'] {
        assert_eq!(
            StateFilter::ALL
                .into_iter()
                .filter(|filter| *filter != StateFilter::All && filter.matches(state))
                .count(),
            1
        );
    }
}

#[test]
fn selection_never_attaches_to_a_reused_pid() {
    let original = process(123, Some(0.0));
    let key = ProcessKey::from(&original);
    let mut replacement = original.clone();
    replacement.start_time_ticks += 1;
    let mut snapshot = snapshot(vec![replacement]);
    assert!(selected_process(&snapshot, key).is_none());
    snapshot.processes.clear();
    assert!(selected_process(&snapshot, key).is_none());
    snapshot.processes.push(original);
    assert!(selected_process(&snapshot, key).is_some());
}

#[test]
fn keyboard_navigation_reaches_offscreen_rows_and_clamps_at_both_ends() {
    assert_eq!(navigation_target(0, 1000, 12, NavigationKey::ArrowUp), 0);
    assert_eq!(navigation_target(999, 1000, 12, NavigationKey::ArrowDown), 999);
    assert_eq!(navigation_target(500, 1000, 12, NavigationKey::PageDown), 512);
    assert_eq!(navigation_target(5, 1000, 12, NavigationKey::PageUp), 0);
    assert_eq!(navigation_target(5, 1000, 12, NavigationKey::End), 999);
    assert_eq!(navigation_target(999, 1000, 12, NavigationKey::Home), 0);
}

#[test]
fn navigation_moves_by_one_row_at_least() {
    assert_eq!(navigation_target(5, 1000, 0, NavigationKey::PageDown), 6);
    assert_eq!(navigation_target(5, 1000, 0, NavigationKey::PageUp), 4);
    assert_eq!(navigation_target(5, 1000, 12, NavigationKey::ArrowUp), 4);
    assert_eq!(navigation_target(5, 3, 12, NavigationKey::Other), 2);
    assert_eq!(navigation_target(5, 0, 12, NavigationKey::End), 0);
}

#[test]
fn time_and_memory_values_preserve_units_and_boundary_rollover() {
    assert_eq!(cpu_time(d(59.999)), "1:00.00");
    assert_eq!(cpu_time(d(3661.0)), "1:01:01");
    assert_eq!(memory(Some(1024 * 1024)), "1.0 MiB");
    assert_eq!(exact_memory(Some(0)), "0 B (0 bytes)");
    assert_eq!(percent(None), "—");
    assert_eq!(elapsed_time(d(90061.0)), "1d 01h 01m 01s");
}

#[test]
fn values_that_are_missing_are_dashes() {
    for seconds in [-1.0, f64::NAN, f64::INFINITY] {
        assert_eq!(cpu_time(d(seconds)), "—");
        assert_eq!(elapsed_time(d(seconds)), "—");
    }
    assert_eq!(percent(Some(d(f64::NAN))), "—");
    assert_eq!(percent(Some(d(12.34))), "12.3");
    assert_eq!(memory(None), "—");
    assert_eq!(exact_memory(None), "—");
    assert_eq!(memory(Some(1023)), "1023 B");
    assert_eq!(memory(Some(u64::MAX)), "16.0 EiB");
    assert_eq!(exact_memory(Some(1536)), "1.5 KiB (1536 bytes)");
}

#[test]
fn values_without_an_order_are_equal_and_missing_ones_come_last() {
    assert_eq!(optional_cmp(Some(1u64), Some(2), false), Ordering::Less);
    assert_eq!(optional_cmp(Some(1u64), Some(2), true), Ordering::Greater);
    assert_eq!(optional_cmp(Some(1u64), None, true), Ordering::Less);
    assert_eq!(optional_cmp(None, Some(1u64), false), Ordering::Greater);
    assert_eq!(optional_cmp(None::<u64>, None, false), Ordering::Equal);
}

#[test]
fn every_column_orders_by_its_own_value() {
    let low = process(1, Some(1.0));
    let mut high = process(1, Some(2.0));
    high.user = "bob".into();
    high.priority = 21;
    high.nice = 1;
    high.virtual_bytes = Some(4096);
    high.resident_bytes = Some(4096);
    high.shared_bytes = Some(4096);
    high.state = 'T';
    high.memory_percent = Some(d(2.0));
    high.cpu_time_secs = d(126.0);
    high.command = "/usr/bin/zebra".into();
    for column in Column::ALL.into_iter().filter(|column| *column != Column::Pid) {
        assert_eq!(compare_processes(&low, &high, column, false), Ordering::Less, "{column:?}");
        assert_eq!(compare_processes(&low, &high, column, true), Ordering::Greater, "{column:?}");
        assert_eq!(compare_processes(&low, &low, column, true), Ordering::Equal);
    }
    let second = process(2, Some(1.0));
    assert_eq!(compare_processes(&low, &second, Column::Pid, true), Ordering::Greater);
    assert_eq!(compare_processes(&low, &second, Column::Pid, false), Ordering::Less);
}

#[test]
fn filters_know_letters_of_every_script() {
    let mut process = process(7, None);
    process.name = "ÄRGER".into();
    process.command = "ΣΊΣΥΦΟΣ".into();
    let snapshot = snapshot(vec![process]);
    for query in ["ärger", "ÄRGER", "σίσυφος", "ΣΊΣΥΦΟΣ", "7 alice ärger"] {
        assert_eq!(filtered_processes(&snapshot, query, StateFilter::All).len(), 1, "{query}");
    }
    assert!(filtered_processes(&snapshot, "arger", StateFilter::All).is_empty());
}

#[test]
fn every_term_has_to_be_held() {
    let terms = |words: &[&str]| words.iter().map(|word| word.chars().collect()).collect::<Vec<_>>();
    assert!(holds_every("a red fox", &terms(&["fox", "re"])));
    assert!(!holds_every("a red fox", &terms(&["fox", "blue"])));
    assert!(holds_every("", &terms(&[])));
}

#[test]
fn states_add_up_to_all_processes() {
    let states = ['R', 'S', 'I', 'D', 'T', 't', 'Z', 'X', 'R'];
    let processes = states
        .into_iter()
        .zip(1..)
        .map(|(state, pid)| Process { state, ..process(pid, None) })
        .collect();
    let snapshot = snapshot(processes);
    let counts: Vec<usize> =
        StateFilter::ALL.into_iter().map(|state| count_in_state(&snapshot, state)).collect();
    assert_eq!(counts, [9, 2, 2, 1, 2, 1, 1]);
}

#[test]
fn rows_are_described_in_full() {
    let row = process(42, Some(12.5));
    assert_eq!(
        accessible_row(&row),
        "PID 42, user alice, priority 20, nice 0, virtual 2.0 KiB, resident 1.0 KiB, shared 512 B, \
         state Sleeping (S), CPU 12.5 percent, memory 1.0 percent, CPU time 2:05.12, \
         command /usr/bin/worker --serve. Select for process details."
    );
    let mut unnamed = row.clone();
    unnamed.command = String::new();
    assert_eq!(command(&unnamed), "worker");
    assert_eq!(
        details(&row),
        [
            "Name: worker",
            "Command: /usr/bin/worker --serve",
            "User: alice · UID: 1000",
            "Parent PID: 1",
            "State: Sleeping (S)",
            "Threads: 1",
            "Priority: 20",
            "Nice: 0",
            "CPU: 12.5%",
            "Memory: 1.0% of RAM",
            "CPU time: 2:05.12 (125.12 seconds)",
            "Elapsed: 0d 00h 15m 00s",
            "Virtual memory: 2.0 KiB (2048 bytes)",
            "Resident memory: 1.0 KiB (1024 bytes)",
            "Shared resident memory (approximate): 512 B (512 bytes)",
        ]
    );
    let mut unknown = process(42, None);
    unknown.uid = None;
    unknown.elapsed_secs = None;
    unknown.cpu_time_secs = d(f64::NAN);
    let lines = details(&unknown);
    assert_eq!(lines[2], "User: alice · UID: —");
    assert_eq!(lines[8], "CPU: —%");
    assert_eq!(lines[10], "CPU time: —");
    assert_eq!(lines[11], "Elapsed: —");
}

#[test]
fn columns_show_what_they_are_titled() {
    let row = process(42, Some(12.5));
    let shown: Vec<(&str, String)> =
        Column::ALL.into_iter().map(|column| (column.title(), column.value(&row))).collect();
    let expected = [
        ("PID", "42"),
        ("USER", "alice"),
        ("PR", "20"),
        ("NI", "0"),
        ("VIRT", "2.0 KiB"),
        ("RES", "1.0 KiB"),
        ("SHR", "512 B"),
        ("S", "S"),
        ("CPU%", "12.5"),
        ("MEM%", "1.0"),
        ("TIME+", "2:05.12"),
        ("COMMAND", "/usr/bin/worker --serve"),
    ];
    assert_eq!(shown, expected.map(|(title, value)| (title, value.to_owned())));
    assert_eq!(Column::ALL.into_iter().map(|column| column.width()).sum::<u16>(), 964);
    assert_eq!(Column::Cpu.description(), "CPU utilization; 100% equals one logical core");
    assert_eq!(state_name('t'), "Tracing stop");
    assert_eq!(state_name('?'), "Other");
    assert_eq!(StateFilter::for_state('I').title(), "Sleeping / idle (S, I)");
}

#[test]
fn the_view_sorts_filters_and_tells_of_it() {
    let mut view = ProcessView::default();
    let snapshot =
        snapshot(vec![process(1, Some(1.0)), process(2, Some(9.0)), process(3, Some(5.0))]);
    assert!(!view.is_filtered());
    assert_eq!(pids(&view.rows(&snapshot)), [2, 3, 1]);
    assert_eq!(view.status(3, 3), "3 of 3 processes · Sorted by CPU% descending");
    assert_eq!(
        view.sort_label(Column::Cpu),
        "Sort by CPU utilization; 100% equals one logical core; currently descending"
    );
    view.sort_by(Column::Cpu);
    assert_eq!(pids(&view.rows(&snapshot)), [1, 3, 2]);
    view.sort_by(Column::Pid);
    assert!(!view.descending);
    assert_eq!(view.sort_label(Column::Pid), "Sort by Process ID; currently ascending");
    assert_eq!(view.sort_label(Column::User), "Sort by User");
    view.sort_by(Column::Resident);
    assert!(view.descending);
    view.query = "3".to_owned();
    assert!(view.is_filtered());
    assert_eq!(pids(&view.rows(&snapshot)), [3]);
    view.clear_filters();
    assert!(!view.is_filtered());
    assert_eq!(view.rows(&snapshot).len(), 3);
    assert_eq!(view.sort, Column::Resident);
}

#[test]
fn focus_follows_a_process_and_keys_move_it() {
    let mut view = ProcessView::default();
    let mut snapshot =
        snapshot(vec![process(1, Some(1.0)), process(2, Some(9.0)), process(3, Some(5.0))]);
    let rows = view.rows(&snapshot);
    assert_eq!(view.follow(&rows, None, 10), None);
    let key = ProcessKey { pid: 2, start_time_ticks: 100 };
    view.select(key);
    view.focus(key, 0);
    // The process stays where it is.
    let rows = view.rows(&snapshot);
    assert_eq!(view.follow(&rows, None, 10), None);
    // It moves to the end of the rows as it calms down.
    snapshot.processes[1].cpu_percent = Some(d(0.0));
    let rows = view.rows(&snapshot);
    assert_eq!(view.follow(&rows, None, 10), Some((key, 2)));
    assert_eq!(view.selected, Some(key));
    // A key goes on from where it is now.
    let above = ProcessKey { pid: 1, start_time_ticks: 100 };
    let target = view.follow(&rows, Some(NavigationKey::ArrowUp), 10);
    assert_eq!(target, Some((above, 1)));
    assert_eq!(view.selected, Some(above));
    view.clear_selection();
    assert_eq!(view.selected, None);
    // A process that has ended is not followed.
    snapshot.processes.remove(1);
    let rows = view.rows(&snapshot);
    assert_eq!(view.follow(&rows, Some(NavigationKey::Home), 10), None);
    assert_eq!(view.selected, None);
}
