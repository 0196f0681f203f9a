use chronodb::{DataPoint, Partition};

#[test]
fn insert_keeps_sorted() {
    let mut partition = Partition::new(0, 100);
    partition.insert(DataPoint::new(30, 3.0));
    partition.insert(DataPoint::new(10, 1.0));
    partition.insert(DataPoint::new(20, 2.0));
    let all = partition.range(0, 100);
    let timestamps: Vec<u64> = all.iter().map(|p| p.timestamp).collect();
    assert_eq!(timestamps, vec![10, 20, 30]);
}

#[test]
fn range_is_half_open() {
    let mut partition = Partition::new(0, 100);
    for t in [0u64, 10, 20, 30, 40] {
        partition.insert(DataPoint::new(t, t as f64));
    }
    // [10, 30): includes 10 and 20, excludes 30.
    let slice = partition.range(10, 30);
    let timestamps: Vec<u64> = slice.iter().map(|p| p.timestamp).collect();
    assert_eq!(timestamps, vec![10, 20]);
}

#[test]
fn end_is_start_plus_size() {
    assert_eq!(Partition::<f64>::new(60, 60).end(), 120);
}

#[test]
fn end_saturates() {
    assert_eq!(Partition::<f64>::new(u64::MAX - 5, 60).end(), u64::MAX);
}

#[test]
fn equal_timestamps_keep_insertion_order() {
    let mut partition = Partition::new(0, 100);
    partition.insert(DataPoint::new(20, 1.0));
    partition.insert(DataPoint::new(10, 2.0));
    partition.insert(DataPoint::new(20, 3.0));
    partition.insert(DataPoint::new(20, 4.0));
    let values: Vec<f64> = partition.range(0, 100).iter().map(|p| p.value).collect();
    assert_eq!(values, vec![2.0, 1.0, 3.0, 4.0]);
    assert_eq!(partition.len(), 4);
    assert!(!partition.is_empty());
    assert_eq!(partition.start(), 0);
}

#[test]
fn empty_partition_and_empty_range() {
    let mut partition: Partition<u8> = Partition::new(0, 10);
    assert!(partition.is_empty());
    assert_eq!(partition.len(), 0);
    partition.insert(DataPoint::new(5, 1));
    assert!(partition.range(6, 6).is_empty());
    assert!(partition.range(0, 5).is_empty());
    assert_eq!(partition.range(5, 6).len(), 1);
}

#[test]
fn inverted_range_is_empty() {
    let mut partition = Partition::new(0, 100);
    partition.insert(DataPoint::new(10, 1u32));
    partition.insert(DataPoint::new(15, 2u32));
    assert!(partition.range(20, 5).is_empty());
    assert!(partition.range(11, 10).is_empty());
    assert_eq!(partition.range(5, 20).len(), 2);
}
