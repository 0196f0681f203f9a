use chronodb::{Aggregation, CoreError, DataPoint, QuerySpec, Store, WindowGroup};

/// The per-window value of an aggregation, folded over the group's values.
fn fold(group: &WindowGroup<f64>, agg: Aggregation) -> f64 {
    let values = &group.values;
    match agg {
        Aggregation::Min => values.iter().copied().fold(f64::INFINITY, f64::min),
        Aggregation::Max => values.iter().copied().fold(f64::NEG_INFINITY, f64::max),
        Aggregation::Sum => values.iter().copied().sum::<f64>(),
        Aggregation::Avg => values.iter().copied().sum::<f64>() / values.len() as f64,
        Aggregation::Count => values.len() as f64,
    }
}

fn store_with_data() -> Store<f64> {
    let mut store = Store::new(60);
    for t in (0u64..120).step_by(10) {
        store.ingest("cpu", DataPoint::new(t, (t + 10) as f64));
        store.ingest("mem", DataPoint::new(t, 1.0));
    }
    store
}

#[test]
fn tracks_multiple_series() {
    let store = store_with_data();
    assert_eq!(store.series_count(), 2);
    assert_eq!(store.point_count("cpu"), 12);
    assert_eq!(store.point_count("missing"), 0);
}

#[test]
fn windowed_query_downsamples() {
    let store = store_with_data();
    // cpu value = ts + 10; window 30, avg:
    // [0,30): 10,20,30 -> 20 ; [30,60): 40,50,60 -> 50
    // [60,90): 70,80,90 -> 80 ; [90,120): 100,110,120 -> 110
    let spec = QuerySpec::new(0, 120, 30, Aggregation::Avg);
    let result = store.query("cpu", &spec).unwrap();
    let avgs: Vec<f64> = result.iter().map(|w| fold(w, spec.agg)).collect();
    assert_eq!(avgs, vec![20.0, 50.0, 80.0, 110.0]);
}

#[test]
fn query_unknown_series_is_empty() {
    let store = store_with_data();
    let spec = QuerySpec::new(0, 120, 30, Aggregation::Avg);
    assert!(store.query("nope", &spec).unwrap().is_empty());
}

#[test]
fn retention_applies_across_series() {
    let mut store = store_with_data();
    // now 120, horizon 60 -> cutoff 60 -> drop [0,60) in each of 2 series.
    let dropped = store.retain(120, 60);
    assert_eq!(dropped, 2);
    assert_eq!(store.point_count("cpu"), 6);
    assert_eq!(store.point_count("mem"), 6);
}

#[test]
fn invalid_window_propagates() {
    let store = store_with_data();
    let spec = QuerySpec::new(0, 120, 0, Aggregation::Avg);
    assert!(store.query("cpu", &spec).is_err());
}

#[test]
fn invalid_window_on_unknown_series_is_still_empty() {
    let store = store_with_data();
    let spec = QuerySpec::new(0, 120, 0, Aggregation::Avg);
    assert!(store.query("nope", &spec).unwrap().is_empty());
    assert_eq!(store.query("cpu", &spec).unwrap_err(), CoreError::InvalidWindow);
    assert_eq!(CoreError::InvalidWindow.message(), "window size must be positive");
}

#[test]
fn series_keys_come_out_sorted() {
    let mut store: Store<f64> = Store::new(10);
    for key in ["mem", "cpu", "disk", "cpu", "é", "Z", "cpu0", ""] {
        store.ingest(key, DataPoint::new(1, 1.0));
    }
    assert_eq!(store.series_keys(), vec!["", "Z", "cpu", "cpu0", "disk", "mem", "é"]);
    assert_eq!(store.series_count(), 7);
    assert_eq!(store.point_count("cpu"), 2);
    assert_eq!(store.point_count("é"), 1);
}

#[test]
fn downsample_after_retention() {
    let mut store = store_with_data();
    store.retain(120, 60);
    let spec = QuerySpec::new(0, 120, 30, Aggregation::Avg);
    let result = store.query("cpu", &spec).unwrap();
    let starts: Vec<u64> = result.iter().map(|w| w.start).collect();
    let avgs: Vec<f64> = result.iter().map(|w| fold(w, spec.agg)).collect();
    assert_eq!(starts, vec![60, 90]);
    assert_eq!(avgs, vec![80.0, 110.0]);
}

#[test]
fn query_clips_to_the_range() {
    let store = store_with_data();
    // [25, 65) holds ts 30, 40, 50, 60 (cpu values 40, 50, 60, 70).
    let spec = QuerySpec::new(25, 65, 30, Aggregation::Sum);
    let result = store.query("cpu", &spec).unwrap();
    let starts: Vec<u64> = result.iter().map(|w| w.start).collect();
    let sums: Vec<f64> = result.iter().map(|w| fold(w, spec.agg)).collect();
    assert_eq!(starts, vec![30, 60]);
    assert_eq!(sums, vec![150.0, 70.0]);
    assert_eq!(result[0].count(), 3);
}

#[test]
fn clamps_partition_size() {
    let mut store: Store<i32> = Store::new(0);
    store.ingest("a", DataPoint::new(0, 1));
    store.ingest("a", DataPoint::new(1, 2));
    // Width 1: each tick its own partition; retention at 1 drops [0,1).
    assert_eq!(store.retain(1, 0), 1);
    assert_eq!(store.point_count("a"), 1);
}
