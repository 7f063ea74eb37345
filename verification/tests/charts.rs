use loadpeek::chart::{
    ago, apart, axis_labels, bounds, chart_name, extremes, format_value, has_data, in_window,
    latest_point, legend, nice_upper, paths, position, range, range_label, sample_labels, time_at,
    valid_point, Series,
};
use loadpeek::double::Double;
use loadpeek::history::History;
use loadpeek::inspection::{
    control_label, inspect_history, inspected_label, moments, CursorAction, CursorInput,
    HistoryCursor, Inspection,
};
use loadpeek::metrics::Snapshot;
use loadpeek::theme::BLUE;

fn d(value: f64) -> Double {
    Double::from_bits(value.to_bits())
}

fn f(value: Double) -> f64 {
    f64::from_bits(value.bits)
}

fn doubles(points: Vec<[f64; 2]>) -> Vec<[Double; 2]> {
    points.into_iter().map(|point| point.map(d)).collect()
}

fn sample(points: Vec<[f64; 2]>) -> Series {
    Series {
        name: "Test".to_owned(),
        color: BLUE,
        history_generation: 0,
        time_origin: d(0.0),
        points: doubles(points),
        dashed: false,
    }
}

fn magnitude(value: Double) -> Double {
    d(10.0_f64.powf(f(value).log10().floor()))
}

fn scale(series: &[Series], fixed_max: Option<f64>) -> (f64, f64) {
    let (lower, upper) = bounds(series, fixed_max.map(d), magnitude);
    (f(lower), f(upper))
}

#[test]
fn every_value_lies_between_the_ends_of_its_axis() {
    let values = [
        5e-324, 2e-308, 1e-9, 0.9, 0.91, 1.0, 1.8, 1.82, 4.54, 4.55, 9.09, 9.1, 99.0, 1e15, 1.6e308,
    ];
    for high in values {
        for low in values {
            let (lower, upper) = scale(&[sample(vec![[-1.0, -low], [0.0, high]])], None);
            assert!(lower <= -low && high <= upper, "{lower} {low} {high} {upper}");
        }
    }
}

#[test]
fn scale_ignores_missing_and_expired_samples() {
    let series = sample(vec![
        [-70.0, 10000.0],
        [-40.0, f64::NAN],
        [-20.0, 8.0],
        [0.0, 12.0],
    ]);
    assert_eq!(scale(&[series], None), (0.0, 20.0));
    assert_eq!(scale(&[], None), (0.0, 1.0));
    assert_eq!(scale(&[sample(vec![[0.0, 0.0]])], None), (0.0, 1.0));
}

#[test]
fn scale_reaches_below_zero_and_up_to_a_fixed_end() {
    let series = [sample(vec![[-1.0, -4.0], [0.0, 3.0]])];
    assert_eq!(scale(&series, Some(100.0)), (-5.0, 100.0));
    assert_eq!(scale(&series, Some(f64::NAN)), (-5.0, 5.0));
    assert_eq!(scale(&series, Some(-1.0)), (-5.0, 5.0));
    let (minimum, maximum) = extremes(&series);
    assert_eq!((f(minimum), f(maximum)), (-4.0, 3.0));
}

#[test]
fn a_scale_ends_at_a_round_number() {
    for (value, expected) in [
        (0.9, 1.0),
        (1.1, 2.0),
        (2.2, 5.0),
        (5.5, 10.0),
        (99.0, 100.0),
        (101.0, 200.0),
        (0.0, 1.0),
        (f64::INFINITY, 1.0),
        (4e-323, f64::MIN_POSITIVE),
    ] {
        assert_eq!(f(nice_upper(d(value), magnitude(d(value)))), expected, "{value}");
    }
}

#[test]
fn a_missing_latest_sample_is_not_reported_as_an_old_value() {
    let series = sample(vec![[-5.0, 42.0], [0.0, f64::NAN]]);
    assert!(latest_point(&series).unwrap()[1].is_nan());
    assert_eq!(
        format_value(latest_point(&series).unwrap()[1], "°C"),
        "Unavailable"
    );
}

#[test]
fn formatter_preserves_units_and_binary_byte_scaling() {
    assert_eq!(format_value(d(1536.0), "B/s"), "1.5 KiB/s");
    assert_eq!(format_value(d(1073741824.0), "bytes"), "1.0 GiB");
    assert_eq!(format_value(d(3400.0), "MHz"), "3.40 GHz");
    assert_eq!(format_value(d(0.0), "B/s"), "0 B/s");
    assert_eq!(format_value(d(f64::NAN), "%"), "Unavailable");
}

#[test]
fn values_have_the_form_of_their_unit() {
    for (value, unit, expected) in [
        (1.0, "bytes/s", "1 B/s"),
        (-2048.0, "B", "-2.0 KiB"),
        (2e20, "B", "173.5 EiB"),
        (12.34, "%", "12.3%"),
        (800.4, "MHz", "800 MHz"),
        (-1500.0, "MHz", "-1.50 GHz"),
        (3.456, "GHz", "3.46 GHz"),
        (41.25, "°C", "41.2 °C"),
        (0.5, "", "0.5"),
        (2.0, "rpm", "2.0 rpm"),
    ] {
        assert_eq!(format_value(d(value), unit), expected);
    }
}

#[test]
fn points_outside_the_window_are_not_drawn() {
    for (seconds, expected) in
        [(-60.0, true), (-60.1, false), (0.0, true), (0.001, true), (0.1, false), (f64::NAN, false)]
    {
        assert_eq!(in_window(d(seconds)), expected, "{seconds}");
        assert_eq!(valid_point([d(seconds), d(1.0)]), expected);
        assert!(!valid_point([d(seconds), d(f64::INFINITY)]));
    }
}

#[test]
fn a_gap_parts_a_line_in_two() {
    let points = doubles(vec![
        [-70.0, 0.0],
        [-50.0, 1.0],
        [-40.0, 2.0],
        [-30.0, f64::NAN],
        [-20.0, 3.0],
        [-10.0, f64::NAN],
    ]);
    let drawn: Vec<Vec<f64>> = paths(&points)
        .iter()
        .map(|path| path.iter().map(|point| f(point[1])).collect::<Vec<_>>())
        .filter(|path| !path.is_empty())
        .collect();
    assert_eq!(drawn, [vec![1.0, 2.0], vec![3.0]]);
}

#[test]
fn a_chart_tells_its_current_lowest_and_highest_value() {
    let series = sample(vec![[-70.0, 99.0], [-20.0, 8.0], [-10.0, 12.5], [0.0, 10.0]]);
    assert!(has_data(&[series.clone()]));
    assert_eq!(legend(&series, "%"), "Test: 10.0%");
    assert_eq!(range_label(&series, "%").as_deref(), Some("min 8.0% · max 12.5%"));
    assert_eq!(range(&series.points).map(|(low, high)| (f(low), f(high))), Some((8.0, 12.5)));
    let empty = sample(vec![]);
    assert!(!has_data(&[empty.clone()]));
    assert_eq!(legend(&empty, "%"), "Test: Unavailable");
    assert_eq!(range_label(&empty, "%"), None);
    assert!(range(&empty.points).is_none());
    let pair = [Series { name: "In".to_owned(), ..empty.clone() }, empty];
    assert_eq!(chart_name(&pair), "In, Test");
    assert_eq!(chart_name(&[]), "");
}

#[test]
fn positions_are_shares_of_the_plot() {
    let (across, up) = position([d(-45.0), d(15.0)], d(10.0), d(20.0));
    assert_eq!((f(across), f(up)), (0.25, 0.5));
    assert_eq!(f(time_at(d(0.25))), -45.0);
    assert_eq!(f(apart(d(-3.0), d(2.0))), 5.0);
    assert_eq!(axis_labels(d(0.0), d(5.0), "%"), ["5.0%", "2.5%", "0.0%"]);
}

#[test]
fn an_age_is_never_negative() {
    assert_eq!(ago(d(-10.04)), "10.0 seconds ago");
    assert_eq!(ago(d(0.0005)), "0.0 seconds ago");
    let series = [sample(vec![[-10.0, 12.0], [-5.0, f64::NAN]]), sample(vec![])];
    assert_eq!(
        sample_labels(&series, d(-6.0), "%"),
        ["Test: Unavailable (5.0s ago)", "Test: Unavailable"]
    );
    assert_eq!(sample_labels(&series, d(-8.0), "%")[0], "Test: 12.0% (10.0s ago)");
}

/// A chart whose cursor stays from one frame to the next.
struct Chart {
    name: &'static str,
    cursor: Option<HistoryCursor>,
    focused: bool,
}

fn no_input() -> CursorInput {
    CursorInput {
        clicked: None,
        left: false,
        right: false,
        home: false,
        end: false,
        actions: vec![],
        focused: false,
    }
}

impl Chart {
    fn new(name: &'static str) -> Self {
        Chart { name, cursor: None, focused: false }
    }

    fn frame(&mut self, series: &[Series], input: CursorInput) -> (Inspection, String) {
        let input = CursorInput { focused: self.focused, ..input };
        let inspection = inspect_history(series, self.cursor, &input);
        self.cursor = inspection.cursor;
        let value = inspected_label(series, inspection.selected, "%");
        (inspection, value)
    }

    fn look(&mut self, series: &[Series], input: CursorInput) -> (Option<f64>, String) {
        let (inspection, value) = self.frame(series, input);
        (inspection.selected.map(f), value)
    }

    fn focus(&mut self, series: &[Series]) -> Option<f64> {
        self.focused = true;
        self.look(series, no_input()).0
    }
}

#[test]
fn named_charts_identify_each_control_and_preserve_series_readouts() {
    let series = [Series {
        name: "Use".into(),
        ..sample(vec![[-10.0, 12.0], [0.0, 42.0]])
    }];
    let mut charts = [Chart::new("Core 0 utilization"), Chart::new("Core 1 utilization")];
    for (core, chart) in charts.iter_mut().enumerate() {
        let prefix = format!("Core {core} utilization, 60-second history.");
        assert!(control_label(chart.name).starts_with(&prefix));
        chart.frame(&series, no_input());
        assert_eq!(legend(&series[0], "%"), "Use: 42.0%");
    }
    for chart in &mut charts {
        let actions = vec![CursorAction::SetValue(Some(d(0.0)))];
        let (inspection, value) = chart.frame(&series, CursorInput { actions, ..no_input() });
        assert_eq!(inspection.index, 0);
        assert!(inspection.changed);
        assert_eq!(value, "10.0 seconds ago. Use: 12.0% (10.0s ago)");
    }
}

#[test]
fn history_controls_keep_focus_and_independent_cursors_when_reparented() {
    let series = [sample(vec![[-10.0, 12.0], [-5.0, 24.0], [0.0, 42.0]])];
    let mut first = Chart::new("First");
    let mut second = Chart::new("Second");
    first.frame(&series, no_input());
    second.frame(&series, no_input());
    first.focused = true;
    let actions = vec![CursorAction::SetValue(Some(d(0.0)))];
    let (selected, _) = first.frame(&series, CursorInput { actions, ..no_input() });
    assert_eq!(selected.index, 0);
    assert_eq!(second.frame(&series, no_input()).0.index, 2);

    // Another frame changes neither cursor.
    let (moved, _) = first.frame(&series, no_input());
    assert_eq!(moved.index, 0);
    assert_eq!(second.frame(&series, no_input()).0.index, 2);
    let (moved, value) = first.frame(&series, CursorInput { right: true, ..no_input() });
    assert_eq!(moved.index, 1);
    assert!(value.contains("Test: 24.0%"));
    assert_eq!(second.frame(&series, no_input()).0.index, 2);
}

#[test]
fn keyboard_inspection_reports_historical_values_and_can_leave_focus() {
    let mut chart = Chart::new("Test");
    let series = [sample(vec![[-10.0, 12.0], [-5.0, f64::NAN], [0.0, 42.0]])];
    assert_eq!(chart.focus(&series), Some(0.0));
    let (selected, accessible_value) = chart.look(&series, CursorInput { left: true, ..no_input() });
    assert_eq!(selected, Some(-5.0));
    assert!(accessible_value.contains("Unavailable"));
    let (selected, value) = chart.look(&series, CursorInput { home: true, ..no_input() });
    assert_eq!(selected, Some(-10.0));
    assert!(value.contains("12.0%"));
    let (selected, _) = chart.look(&series, CursorInput { end: true, ..no_input() });
    assert_eq!(selected, Some(0.0));
    // Without the focus the cursor stays where it is.
    chart.focused = false;
    assert_eq!(chart.look(&series, no_input()).0, Some(0.0));
}

fn cpu_history_series(history: &History) -> [Series; 1] {
    [Series {
        time_origin: history.latest_time(),
        points: history.series(|snapshot| snapshot.cpu_percent),
        ..sample(vec![])
    }]
}

fn push_cpu(history: &mut History, at: f64, value: Option<f64>) {
    history.push(
        d(at),
        Snapshot {
            cpu_percent: value.map(d),
            ..Default::default()
        },
    );
}

#[test]
fn inspection_retains_observations_through_startup_trimming_and_interval_changes() {
    let mut chart = Chart::new("Test");
    let mut history = History::default();
    for at in 0..=58 {
        push_cpu(&mut history, f64::from(at), Some(f64::from(at)));
    }
    chart.focus(&cpu_history_series(&history));
    let (selected, value) =
        chart.look(&cpu_history_series(&history), CursorInput { left: true, ..no_input() });
    assert_eq!(selected, Some(-1.0));
    assert!(value.contains("Test: 57.0%"));

    // The original t=57 observation survives growth, deque trimming, and
    // fractional boundary points caused by changing the polling interval.
    for at in [59.0, 60.0, 61.0, 61.5, 66.5] {
        push_cpu(&mut history, at, Some(at));
        let (selected, value) = chart.look(&cpu_history_series(&history), no_input());
        assert_eq!(selected, Some(57.0 - at));
        assert!(value.contains("Test: 57.0%"), "{value}");
    }

    // Once the observation expires, inspect the oldest remaining point.
    push_cpu(&mut history, 118.0, Some(118.0));
    let (selected, value) = chart.look(&cpu_history_series(&history), no_input());
    assert_eq!(selected, Some(-60.0));
    assert!(value.contains("Test: 58.0%"));
}

#[test]
fn inspection_retains_gaps_and_resets_when_history_is_cleared() {
    let mut chart = Chart::new("Test");
    let mut history = History::default();
    for at in 0..=60 {
        push_cpu(&mut history, f64::from(at), (at != 59).then_some(f64::from(at)));
    }
    chart.focus(&cpu_history_series(&history));
    chart.look(&cpu_history_series(&history), CursorInput { left: true, ..no_input() });
    push_cpu(&mut history, 61.0, Some(61.0));
    let (selected, value) = chart.look(&cpu_history_series(&history), no_input());
    assert_eq!(selected, Some(-2.0));
    assert!(value.contains("Unavailable"));

    history = History::default();
    let (selected, value) = chart.look(&cpu_history_series(&history), no_input());
    assert_eq!(selected, None);
    assert_eq!(value, "No samples available");
    push_cpu(&mut history, 80.0, Some(80.0));
    push_cpu(&mut history, 81.0, Some(81.0));
    let (selected, value) = chart.look(&cpu_history_series(&history), no_input());
    assert_eq!(selected, Some(0.0));
    assert!(value.contains("Test: 81.0%"));

    // A replacement history with a restarted clock is safe even if its
    // empty frame was never shown (for example, while on another page).
    history = History::default();
    push_cpu(&mut history, 1.0, Some(1.0));
    push_cpu(&mut history, 2.0, Some(2.0));
    let (selected, value) = chart.look(&cpu_history_series(&history), no_input());
    assert_eq!(selected, Some(0.0));
    assert!(value.contains("Test: 2.0%"));
}

#[test]
fn inspection_resets_hidden_history_on_a_new_collection_generation() {
    let mut chart = Chart::new("Test");
    let series = [Series {
        time_origin: d(20.0),
        ..sample(vec![[-10.0, 12.0], [-5.0, 24.0], [0.0, 42.0]])
    }];
    chart.focus(&series);
    let (selected, _) = chart.look(&series, CursorInput { home: true, ..no_input() });
    assert_eq!(selected, Some(-10.0));

    // A chart on another page never observes the empty history at resume.
    // The worker's monotonic clock continues across the new baseline.
    let resumed = [Series {
        history_generation: 1,
        time_origin: d(32.0),
        ..sample(vec![[-2.0, f64::NAN], [-1.0, 50.0], [0.0, 55.0]])
    }];
    let (selected, value) = chart.look(&resumed, no_input());
    assert_eq!(selected, Some(0.0));
    assert!(value.contains("Test: 55.0%"));

    // New navigation in this generation still retains its observation.
    let (selected, _) = chart.look(&resumed, CursorInput { left: true, ..no_input() });
    assert_eq!(selected, Some(-1.0));
    let advanced = [Series {
        history_generation: 1,
        time_origin: d(33.0),
        ..sample(vec![
            [-3.0, f64::NAN],
            [-2.0, 50.0],
            [-1.0, 55.0],
            [0.0, 60.0],
        ])
    }];
    assert_eq!(chart.look(&advanced, no_input()).0, Some(-2.0));
}

#[test]
fn a_click_and_actions_select_what_they_name() {
    let series = [sample(vec![[-10.0, 1.0], [-5.0, 2.0], [0.0, 3.0]])];
    let mut chart = Chart::new("Test");
    // A click gives the chart the focus.
    chart.focused = true;
    let clicked = Some(d(-6.0));
    let (inspection, _) = chart.frame(&series, CursorInput { clicked, ..no_input() });
    assert_eq!(inspection.index, 1);
    for (action, index) in [
        (CursorAction::Decrement, 0),
        (CursorAction::Decrement, 0),
        (CursorAction::Increment, 1),
        (CursorAction::SetValue(Some(d(1.5))), 2),
        (CursorAction::SetValue(Some(d(-7.0))), 0),
        (CursorAction::SetValue(Some(d(f64::NAN))), 0),
        (CursorAction::SetValue(Some(d(99.0))), 2),
        (CursorAction::SetValue(None), 2),
        (CursorAction::Increment, 2),
    ] {
        let actions = vec![action];
        let (inspection, _) = chart.frame(&series, CursorInput { actions, ..no_input() });
        assert_eq!(inspection.index, index, "{action:?}");
    }
    // A chart that nobody has looked at closely remembers nothing.
    let mut other = Chart::new("Other");
    assert_eq!(other.frame(&series, no_input()).0.index, 2);
    assert_eq!(other.cursor, None);
}

#[test]
fn moments_are_told_apart_and_in_order() {
    let series = [
        sample(vec![[-5.0, 1.0], [-70.0, 2.0], [0.0, 3.0]]),
        sample(vec![[-5.000_000_1, 1.0], [-20.0, f64::NAN]]),
    ];
    let found: Vec<f64> = moments(&series).into_iter().map(f).collect();
    assert_eq!(found, [-20.0, -5.000_000_1, 0.0]);
    assert!(moments(&[]).is_empty());
}

#[test]
fn what_is_inspected_stays_nearest_at_uneven_times() {
    let mut chart = Chart::new("Test");
    let mut history = History::default();
    for step in 0..20 {
        push_cpu(&mut history, 7.3 + f64::from(step) * 0.7, Some(f64::from(step)));
    }
    chart.focus(&cpu_history_series(&history));
    let (selected, value) =
        chart.look(&cpu_history_series(&history), CursorInput { left: true, ..no_input() });
    assert!(value.contains("Test: 18.0%"), "{value}");
    let mut inspected = f(history.latest_time()) + selected.unwrap();
    for step in 20..100 {
        push_cpu(&mut history, 7.3 + f64::from(step) * 0.7, Some(f64::from(step)));
        let series = cpu_history_series(&history);
        let wanted = inspected - f(history.latest_time());
        let (selected, value) = chart.look(&series, no_input());
        let times: Vec<f64> = moments(&series).into_iter().map(f).collect();
        let distance = (selected.unwrap() - wanted).abs();
        assert!(times.iter().all(|time| distance <= (time - wanted).abs()));
        assert!(value.contains("Test: 18.0%"), "{value}");
        inspected = f(history.latest_time()) + selected.unwrap();
    }

    // What is gone is followed by the oldest that is left.
    push_cpu(&mut history, 100.0, Some(100.0));
    let series = cpu_history_series(&history);
    let (selected, _) = chart.look(&series, no_input());
    assert_eq!(selected, moments(&series).first().copied().map(f));
    assert_eq!(selected, Some(-60.0));
}

#[test]
fn every_sample_in_the_window_has_a_moment() {
    let series = [
        sample(vec![[-30.0, 1.0], [-10.0, 2.0], [0.0, 3.0]]),
        sample(vec![[-30.000_000_000_1, 1.0], [-20.0, 2.0], [-70.0, 3.0]]),
    ];
    let found: Vec<f64> = moments(&series).into_iter().map(f).collect();
    assert_eq!(found.len(), 4);
    for time in [-30.0_f64, -10.0, 0.0, -30.000_000_000_1, -20.0] {
        assert!(found.iter().any(|moment| (moment - time).abs() < 1e-6));
    }
}
