use chronodb::{Aggregation, DataPoint, QuerySpec, Series, Store};

fn timestamps(points: &[DataPoint<u64>]) -> Vec<u64> {
    points.iter().map(|p| p.timestamp).collect()
}

#[test]
fn adjacent_ranges_tile_the_timeline() {
    let mut series = Series::new(25);
    for t in [0u64, 59, 60, 61, 119, 120, 7, 60] {
        series.insert(DataPoint::new(t, t));
    }
    let mut tiled = series.range(0, 60);
    tiled.extend(series.range(60, 120));
    assert_eq!(timestamps(&tiled), timestamps(&series.range(0, 120)));
    assert_eq!(timestamps(&series.range(0, 60)), vec![0, 7, 59]);
    assert_eq!(timestamps(&series.range(60, 120)), vec![60, 60, 61, 119]);
}

#[test]
fn windows_agree_across_overlapping_queries() {
    let mut store = Store::new(45);
    for t in (0u64..200).step_by(7) {
        store.ingest("cpu", DataPoint::new(t, t * 3));
    }
    let wide = store.query("cpu", &QuerySpec::new(0, 200, 30, Aggregation::Sum)).unwrap();
    let narrow = store.query("cpu", &QuerySpec::new(25, 130, 30, Aggregation::Sum)).unwrap();
    // Windows [30,60), [60,90), [90,120) lie whole inside both ranges.
    for start in [30u64, 60, 90] {
        let a = wide.iter().find(|g| g.start == start).unwrap();
        let b = narrow.iter().find(|g| g.start == start).unwrap();
        assert_eq!(a.values, b.values);
    }
    // The clipped edge windows differ.
    let first = narrow.first().unwrap();
    assert_eq!(first.start, 0);
    assert_eq!(first.values, vec![28 * 3]);
}

#[test]
fn retention_keeps_every_point_at_or_after_the_cutoff() {
    let mut series = Series::new(40);
    for t in [1u64, 39, 40, 79, 80, 100, 150] {
        series.insert(DataPoint::new(t, t));
    }
    let before: Vec<u64> = timestamps(&series.range(0, u64::MAX)).into_iter().filter(|t| *t >= 85).collect();
    assert_eq!(series.retain(85), 2);
    let after: Vec<u64> = timestamps(&series.range(0, u64::MAX)).into_iter().filter(|t| *t >= 85).collect();
    assert_eq!(before, after);
    // [80,120) straddles the cutoff and is kept whole, point 80 included.
    assert_eq!(timestamps(&series.range(0, u64::MAX)), vec![80, 100, 150]);
}

#[test]
fn an_ingested_point_is_read_back_in_its_window() {
    let mut store = Store::new(100);
    store.ingest("a", DataPoint::new(10, 1u64));
    store.ingest("b", DataPoint::new(55, 2u64));
    store.ingest("a", DataPoint::new(57, 3u64));
    let before = store.point_count("a");
    store.ingest("a", DataPoint::new(57, 4u64));
    assert_eq!(store.point_count("a"), before + 1);
    assert_eq!(store.point_count("b"), 1);
    let groups = store.query("a", &QuerySpec::new(50, 60, 20, Aggregation::Count)).unwrap();
    assert_eq!(groups.len(), 1);
    assert_eq!(groups[0].start, 40);
    assert_eq!(groups[0].values, vec![3, 4]);
}

#[test]
fn ingest_adds_exactly_one_point() {
    let mut series = Series::new(10);
    let mut expected: Vec<u64> = Vec::new();
    for t in [30u64, 5, 30, 999, 0, 17] {
        series.insert(DataPoint::new(t, t));
        expected.push(t);
        expected.sort();
        assert_eq!(series.point_count(), expected.len());
        assert_eq!(timestamps(&series.range(0, u64::MAX)), expected);
    }
}

#[test]
fn a_later_aligned_start_keeps_the_later_windows() {
    let mut store = Store::new(50);
    for t in (0u64..240).step_by(11) {
        store.ingest("cpu", DataPoint::new(t, t + 1));
    }
    let early = store.query("cpu", &QuerySpec::new(7, 200, 40, Aggregation::Sum)).unwrap();
    let late = store.query("cpu", &QuerySpec::new(80, 200, 40, Aggregation::Sum)).unwrap();
    let kept: Vec<_> = early.iter().filter(|g| g.start >= 80).cloned().collect();
    assert_eq!(late.len(), 3);
    assert_eq!(late.len(), kept.len());
    for (a, b) in late.iter().zip(kept.iter()) {
        assert_eq!(a.start, b.start);
        assert_eq!(a.values, b.values);
    }
    assert_eq!(late[0].start, 80);
    assert_eq!(late[0].values, vec![89, 100, 111]);
}

#[test]
fn queries_do_not_depend_on_the_partition_width() {
    let mut narrow = Store::new(60);
    let mut wide = Store::new(3600);
    for (t, v) in [(0u64, 10u64), (10, 20), (20, 30), (30, 40), (40, 50), (50, 60), (60, 70), (70, 80), (80, 90), (90, 100), (100, 110), (110, 120)] {
        narrow.ingest("cpu", DataPoint::new(t, v));
        wide.ingest("cpu", DataPoint::new(t, v));
    }
    let spec = QuerySpec::new(0, 120, 30, Aggregation::Avg);
    let a = narrow.query("cpu", &spec).unwrap();
    let b = wide.query("cpu", &spec).unwrap();
    assert_eq!(a.len(), 4);
    assert_eq!(a.len(), b.len());
    for (x, y) in a.iter().zip(b.iter()) {
        assert_eq!(x.start, y.start);
        assert_eq!(x.values, y.values);
    }
    let avgs: Vec<u64> = a.iter().map(|g| g.values.iter().sum::<u64>() / g.values.len() as u64).collect();
    assert_eq!(avgs, vec![20, 50, 80, 110]);
}

#[test]
fn listed_keys_are_those_ever_ingested_into() {
    let mut store = Store::new(10);
    store.ingest("mem", DataPoint::new(5, 1u8));
    store.ingest("cpu", DataPoint::new(500, 2u8));
    assert_eq!(store.retain(1000, 10), 2);
    store.ingest("disk", DataPoint::new(990, 3u8));
    store.ingest("cpu", DataPoint::new(995, 4u8));
    assert_eq!(store.retain(1000, 0), 2);
    let keys = store.series_keys();
    assert_eq!(keys, vec!["cpu".to_string(), "disk".to_string(), "mem".to_string()]);
    assert_eq!(keys.len(), store.series_count());
}
