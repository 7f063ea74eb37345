use loadpeek::double::Double;
use loadpeek::history::{points, History, MAX_SAMPLES};
use loadpeek::metrics::Snapshot;

fn d(value: f64) -> Double {
    Double::from_bits(value.to_bits())
}

fn f(value: Double) -> f64 {
    f64::from_bits(value.bits)
}

fn observation(cpu: Option<f64>) -> Snapshot {
    Snapshot {
        cpu_percent: cpu.map(d),
        ..Snapshot::default()
    }
}

fn push(history: &mut History, at: f64, cpu: Option<f64>) {
    history.push(d(at), observation(cpu));
}

fn series(history: &History) -> Vec<[f64; 2]> {
    history
        .series(|s| s.cpu_percent)
        .into_iter()
        .map(|point| point.map(f))
        .collect()
}

#[test]
fn startup_uses_only_measured_history() {
    let mut history = History::default();
    assert!(history.latest().is_none());
    assert!(series(&history).is_empty());
    push(&mut history, 20.0, Some(10.0));
    push(&mut history, 25.0, Some(30.0));
    assert_eq!(f(history.span_seconds()), 5.0);
    assert_eq!(series(&history), vec![[-5.0, 10.0], [0.0, 30.0]]);
}

#[test]
fn changed_polling_interval_keeps_real_timestamps() {
    let mut history = History::default();
    for at in [0.0, 5.0, 10.0, 10.5, 11.0, 16.0] {
        push(&mut history, at, Some(at));
    }
    let times: Vec<_> = series(&history).into_iter().map(|p| p[0]).collect();
    assert_eq!(times, [-16.0, -11.0, -6.0, -5.5, -5.0, 0.0]);
}

#[test]
fn boundary_is_clipped_with_linear_interpolation() {
    let mut history = History::default();
    for at in [0.0, 5.0, 10.0, 62.0] {
        push(&mut history, at, Some(at * 2.0));
    }
    let points = series(&history);
    assert_eq!(
        points,
        vec![[-60.0, 4.0], [-57.0, 10.0], [-52.0, 20.0], [0.0, 124.0]]
    );
    assert_eq!(f(history.span_seconds()), 60.0);
    push(&mut history, 65.0, Some(130.0));
    assert_eq!(series(&history)[0], [-60.0, 10.0]);
    assert_eq!(history.len(), 4);
}

#[test]
fn missing_or_invalid_metrics_preserve_gaps_including_at_boundary() {
    let mut history = History::default();
    for (at, cpu) in [
        (0.0, None),
        (5.0, Some(5.0)),
        (10.0, Some(f64::INFINITY)),
        (62.0, Some(62.0)),
    ] {
        push(&mut history, at, cpu);
    }
    let points = series(&history);
    assert_eq!(points[0][0], -60.0);
    assert!(points[0][1].is_nan());
    assert_eq!(points[1], [-57.0, 5.0]);
    assert!(points[2][1].is_nan());
    assert_eq!(points[3], [0.0, 62.0]);
}

#[test]
fn invalid_timestamps_do_not_corrupt_history() {
    let mut history = History::default();
    push(&mut history, 10.0, Some(1.0));
    push(&mut history, f64::NAN, Some(2.0));
    push(&mut history, f64::INFINITY, Some(3.0));
    push(&mut history, 9.0, Some(4.0));
    push(&mut history, 10.0, Some(5.0));
    assert_eq!(history.len(), 1);
    assert_eq!(f(history.latest_time()), 10.0);
    assert_eq!(history.latest().unwrap().cpu_percent.map(f), Some(5.0));
}

#[test]
fn fastest_refresh_retains_a_minute_with_bounded_storage() {
    let mut history = History::default();
    for step in 0..10_000 {
        push(&mut history, f64::from(step) * 0.5, Some(50.0));
    }
    assert_eq!(history.len(), 121);
    assert_eq!(f(history.span_seconds()), 60.0);
    let points = series(&history);
    assert_eq!(points.first().unwrap()[0], -60.0);
    assert_eq!(points.last().unwrap()[0], 0.0);
}

#[test]
fn storage_is_bounded_however_fast_samples_come() {
    let mut history = History::default();
    for step in 0..500 {
        push(&mut history, f64::from(step) * 0.01, Some(f64::from(step)));
    }
    assert_eq!(history.len(), MAX_SAMPLES);
    assert_eq!(history.latest().unwrap().cpu_percent.map(f), Some(499.0));
}

#[test]
fn an_empty_history_has_no_time_and_no_span() {
    let history = History::default();
    assert_eq!(history.len(), 0);
    assert_eq!(f(history.latest_time()), 0.0);
    assert_eq!(f(history.span_seconds()), 0.0);
}

#[test]
fn points_are_told_from_times_and_values() {
    let times = [1.0, 2.0, 63.0].map(d).to_vec();
    let values = vec![Some(d(10.0)), None, Some(d(30.0))];
    let found: Vec<[f64; 2]> = points(&times, &values).into_iter().map(|p| p.map(f)).collect();
    assert_eq!(found.len(), 2);
    assert_eq!(found[0][0], -60.0);
    assert!(found[0][1].is_nan());
    assert_eq!(found[1], [0.0, 30.0]);
}

#[test]
fn points_are_in_order_and_in_the_window_at_uneven_times() {
    let mut history = History::default();
    for step in 0..400 {
        push(&mut history, 1234.567 + f64::from(step) * 0.71, Some(f64::from(step)));
        let points = series(&history);
        assert_eq!(points.len(), history.len());
        assert!(points.windows(2).all(|pair| pair[0][0] <= pair[1][0]));
        assert!(points.iter().all(|point| -60.0 <= point[0] && point[0] <= 0.0));
        assert_eq!(points.last().unwrap()[0], 0.0);
    }
}

#[test]
fn an_observation_of_a_minute_ago_is_a_point_of_its_own() {
    for latest in [60.0, 60.3, 99.9, 1234.567, 1e9 + 0.1, 999_999_999_999.9, 1e12] {
        let mut history = History::default();
        push(&mut history, latest - 60.0, Some(1.0));
        push(&mut history, latest, Some(2.0));
        let points = series(&history);
        assert_eq!(points.len(), 2);
        assert!(-60.0 <= points[0][0] && points[0][0] < -59.0);
        assert_eq!(points[0][1], 1.0);
        assert_eq!(points[1], [0.0, 2.0]);
    }
}
