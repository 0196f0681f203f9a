use chronodb::{Aggregation, CoreError, DataPoint, WindowGroup, group_windows};

fn points() -> Vec<DataPoint<f64>> {
    // ts:  0  10  20  30  40  50
    // val: 1   2   3   4   5   6
    vec![
        DataPoint::new(0, 1.0),
        DataPoint::new(10, 2.0),
        DataPoint::new(20, 3.0),
        DataPoint::new(30, 4.0),
        DataPoint::new(40, 5.0),
        DataPoint::new(50, 6.0),
    ]
}

/// The per-window value of an aggregation, folded over the group's values.
fn fold(group: &WindowGroup<f64>, agg: Aggregation) -> f64 {
    let values = &group.values;
    match agg {
        Aggregation::Min => values.iter().copied().fold(f64::INFINITY, f64::min),
        Aggregation::Max => values.iter().copied().fold(f64::NEG_INFINITY, f64::max),
        Aggregation::Sum => values.iter().copied().sum::<f64>(),
        Aggregation::Avg => values.iter().copied().sum::<f64>() / values.len() as f64,
        Aggregation::Count => values.len() as f64,
    }
}

#[test]
fn zero_window_is_rejected() {
    assert!(matches!(group_windows(&points(), 0), Err(CoreError::InvalidWindow)));
}

#[test]
fn avg_per_thirty_tick_window() {
    // [0,30): 1,2,3 -> avg 2.0 ; [30,60): 4,5,6 -> avg 5.0
    let result = group_windows(&points(), 30).unwrap();
    assert_eq!(result.len(), 2);
    assert_eq!((result[0].start, fold(&result[0], Aggregation::Avg), result[0].count()), (0, 2.0, 3));
    assert_eq!((result[1].start, fold(&result[1], Aggregation::Avg), result[1].count()), (30, 5.0, 3));
}

#[test]
fn min_max_sum_count() {
    let groups = group_windows(&points(), 30).unwrap();
    assert_eq!(fold(&groups[0], Aggregation::Min), 1.0);
    assert_eq!(fold(&groups[1], Aggregation::Min), 4.0);

    assert_eq!(fold(&groups[0], Aggregation::Max), 3.0);
    assert_eq!(fold(&groups[1], Aggregation::Max), 6.0);

    assert_eq!(fold(&groups[0], Aggregation::Sum), 6.0); // 1+2+3
    assert_eq!(fold(&groups[1], Aggregation::Sum), 15.0); // 4+5+6

    assert_eq!(fold(&groups[0], Aggregation::Count), 3.0);
    assert_eq!(groups[0].count(), 3);
}

#[test]
fn boundary_point_falls_in_upper_window() {
    // A single point exactly on the boundary t=30 with window 30 must land
    // in window [30,60), not [0,30).
    let result = group_windows(&[DataPoint::new(30, 9.0)], 30).unwrap();
    assert_eq!(result.len(), 1);
    assert_eq!(result[0].start, 30);
}

#[test]
fn single_wide_window_holds_everything() {
    let result = group_windows(&points(), 1000).unwrap();
    assert_eq!(result.len(), 1);
    assert_eq!(result[0].count(), 6);
    assert_eq!(result[0].start, 0);
}

#[test]
fn unsorted_input_groups_in_window_order() {
    let input = vec![
        DataPoint::new(95, 'a'),
        DataPoint::new(5, 'b'),
        DataPoint::new(61, 'c'),
        DataPoint::new(9, 'd'),
        DataPoint::new(60, 'e'),
    ];
    let groups = group_windows(&input, 30).unwrap();
    let summary: Vec<(u64, Vec<char>)> = groups.iter().map(|g| (g.start, g.values.clone())).collect();
    assert_eq!(summary, vec![(0, vec!['b', 'd']), (60, vec!['c', 'e']), (90, vec!['a'])]);
}

#[test]
fn empty_input_has_no_windows() {
    let none: Vec<DataPoint<f64>> = Vec::new();
    assert!(group_windows(&none, 7).unwrap().is_empty());
    assert!(group_windows(&none, 0).is_err());
}

#[test]
fn window_of_one_tick_and_of_the_whole_range() {
    let input = vec![DataPoint::new(u64::MAX, 1u8), DataPoint::new(0, 2u8), DataPoint::new(u64::MAX, 3u8)];
    let groups = group_windows(&input, 1).unwrap();
    let summary: Vec<(u64, Vec<u8>)> = groups.iter().map(|g| (g.start, g.values.clone())).collect();
    assert_eq!(summary, vec![(0, vec![2]), (u64::MAX, vec![1, 3])]);
    let groups = group_windows(&input, u64::MAX).unwrap();
    let summary: Vec<(u64, Vec<u8>)> = groups.iter().map(|g| (g.start, g.values.clone())).collect();
    assert_eq!(summary, vec![(0, vec![2]), (u64::MAX, vec![1, 3])]);
}
