use chronodb::{
    AggArg, Aggregation, DataPoint, InMemoryWal, QuerySpec, Store, WalRecord, WriteAheadLog, log_lines,
};

fn record(ts: u64, value: f64) -> WalRecord<f64> {
    WalRecord {
        series: "cpu".into(),
        timestamp: ts,
        value,
    }
}

#[test]
fn in_memory_appends_and_replays() {
    let mut wal = InMemoryWal::new();
    wal.append(&record(10, 1.0)).unwrap();
    wal.append(&record(20, 2.0)).unwrap();
    let replayed = wal.replay().unwrap();
    assert_eq!(replayed.len(), 2);
    assert_eq!(replayed[1].timestamp, 20);
}

#[test]
fn in_memory_wal_starts_empty_and_counts() {
    let mut wal: InMemoryWal<f64> = InMemoryWal::default();
    assert!(wal.is_empty());
    assert!(wal.replay().unwrap().is_empty());
    wal.append(&record(5, 0.5)).unwrap();
    assert_eq!(wal.len(), 1);
    assert!(!wal.is_empty());
    assert_eq!(wal.replay().unwrap(), vec![record(5, 0.5)]);
}

#[test]
fn replaying_the_log_rebuilds_the_store() {
    let mut wal = InMemoryWal::new();
    let mut direct = Store::new(60);
    for t in (0u64..120).step_by(10) {
        for (series, value) in [("cpu", (t + 10) as f64), ("mem", 1.0)] {
            let r = WalRecord { series: series.to_string(), timestamp: t, value };
            wal.append(&r).unwrap();
            direct.ingest(series, DataPoint::new(t, value));
        }
    }
    let rebuilt = Store::from_records(60, &wal.replay().unwrap());
    assert_eq!(rebuilt.series_keys(), direct.series_keys());
    let spec = QuerySpec::new(0, 120, 30, Aggregation::Avg);
    for key in ["cpu", "mem"] {
        let a: Vec<(u64, Vec<f64>)> =
            rebuilt.query(key, &spec).unwrap().into_iter().map(|g| (g.start, g.values)).collect();
        let b: Vec<(u64, Vec<f64>)> =
            direct.query(key, &spec).unwrap().into_iter().map(|g| (g.start, g.values)).collect();
        assert_eq!(a, b);
        assert_eq!(rebuilt.point_count(key), 12);
    }
}

#[test]
fn log_lines_skip_blank_lines() {
    let lines: Vec<String> = log_lines("a\n\n  \r\nb\r\n\tc \n")
        .into_iter()
        .map(|l| l.into_iter().collect())
        .collect();
    assert_eq!(lines, vec!["a", "b", "\tc "]);
}

#[test]
fn log_lines_take_an_unterminated_last_line() {
    let lines: Vec<String> =
        log_lines("x\ny").into_iter().map(|l| l.into_iter().collect()).collect();
    assert_eq!(lines, vec!["x", "y"]);
    let lines: Vec<String> =
        log_lines("x\r").into_iter().map(|l| l.into_iter().collect()).collect();
    assert_eq!(lines, vec!["x\r"]);
    assert!(log_lines("").is_empty());
    assert!(log_lines("\n\n\u{3000}\u{a0}\n").is_empty());
    let lines: Vec<String> =
        log_lines("{\"a\":1}\n{\"b\":2}\n").into_iter().map(|l| l.into_iter().collect()).collect();
    assert_eq!(lines, vec!["{\"a\":1}", "{\"b\":2}"]);
}

#[test]
fn log_lines_agree_with_std() {
    let text = "one\r\n \n two \n\u{2003}\nthree\r\r\nfour";
    let expected: Vec<String> =
        text.lines().filter(|l| !l.trim().is_empty()).map(|l| l.to_string()).collect();
    let got: Vec<String> = log_lines(text).into_iter().map(|l| l.into_iter().collect()).collect();
    assert_eq!(got, expected);
}

#[test]
fn agg_arg_maps_to_core() {
    assert_eq!(AggArg::Min.to_core(), Aggregation::Min);
    assert_eq!(AggArg::Max.to_core(), Aggregation::Max);
    assert_eq!(AggArg::Sum.to_core(), Aggregation::Sum);
    assert_eq!(AggArg::Avg.to_core(), Aggregation::Avg);
    assert_eq!(AggArg::Count.to_core(), Aggregation::Count);
}
