use chronodb::{DataPoint, Series};

fn series_with_points() -> Series<f64> {
    let mut series = Series::new(60);
    for t in (0u64..120).step_by(10) {
        series.insert(DataPoint::new(t, t as f64));
    }
    series
}

#[test]
fn points_land_in_correct_partitions() {
    let series = series_with_points();
    // partition_size 60 -> partitions [0,60) and [60,120).
    assert_eq!(series.partition_count(), 2);
    assert_eq!(series.point_count(), 12);
}

#[test]
fn range_spans_partition_boundaries() {
    let series = series_with_points();
    // [50, 70) crosses the partition boundary: ts 50 and 60.
    let scanned = series.range(50, 70);
    let timestamps: Vec<u64> = scanned.iter().map(|p| p.timestamp).collect();
    assert_eq!(timestamps, vec![50, 60]);
}

#[test]
fn range_returns_ascending_order() {
    let series = series_with_points();
    let all = series.range(0, 120);
    let mut sorted = all.clone();
    sorted.sort_by_key(|p| p.timestamp);
    let a: Vec<u64> = all.iter().map(|p| p.timestamp).collect();
    let b: Vec<u64> = sorted.iter().map(|p| p.timestamp).collect();
    assert_eq!(a, b);
}

#[test]
fn retention_drops_old_partitions() {
    let mut series = series_with_points();
    // cutoff 60 -> partition [0,60) expires, [60,120) stays.
    let dropped = series.retain(60);
    assert_eq!(dropped, 1);
    assert_eq!(series.partition_count(), 1);
    assert_eq!(series.point_count(), 6); // ts 60..110
}

#[test]
fn zero_partition_size_is_clamped_to_one() {
    let mut series = Series::new(0);
    series.insert(DataPoint::new(5, 1u32));
    series.insert(DataPoint::new(6, 2u32));
    series.insert(DataPoint::new(5, 3u32));
    assert_eq!(series.partition_count(), 2);
    let values: Vec<u32> = series.range(0, 10).iter().map(|p| p.value).collect();
    assert_eq!(values, vec![1, 3, 2]);
}

#[test]
fn out_of_order_ingest_is_scanned_in_time_order() {
    let mut series = Series::new(10);
    for t in [95u64, 3, 47, 12, 47, 0, 61] {
        series.insert(DataPoint::new(t, t));
    }
    let ts: Vec<u64> = series.range(0, 100).iter().map(|p| p.timestamp).collect();
    assert_eq!(ts, vec![0, 3, 12, 47, 47, 61, 95]);
    assert_eq!(series.partition_count(), 5);
    assert!(series.range(47, 47).is_empty());
    assert!(series.range(50, 40).is_empty());
    let ts: Vec<u64> = series.range(12, 62).iter().map(|p| p.timestamp).collect();
    assert_eq!(ts, vec![12, 47, 47, 61]);
}

#[test]
fn retention_keeps_a_straddling_partition_whole() {
    let mut series = Series::new(60);
    for t in [10u64, 50, 70, 110] {
        series.insert(DataPoint::new(t, ()));
    }
    // cutoff 65 lies inside [60,120): that partition is kept whole.
    assert_eq!(series.retain(65), 1);
    let ts: Vec<u64> = series.range(0, 200).iter().map(|p| p.timestamp).collect();
    assert_eq!(ts, vec![70, 110]);
    assert_eq!(series.retain(0), 0);
    assert_eq!(series.retain(u64::MAX), 1);
    assert!(series.is_empty());
    assert_eq!(series.point_count(), 0);
}
