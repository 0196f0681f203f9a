use chronodb::retention::{cutoff, is_expired};

#[test]
fn cutoff_saturates() {
    assert_eq!(cutoff(100, 60), 40);
    assert_eq!(cutoff(30, 60), 0);
}

#[test]
fn partition_entirely_before_cutoff_expires() {
    // [0,60) with cutoff 60: end == cutoff -> expired (half-open).
    assert!(is_expired(0, 60, 60));
    // [60,120) with cutoff 60: not expired.
    assert!(!is_expired(60, 60, 60));
    // [0,60) with cutoff 30: end 60 > 30 -> not expired.
    assert!(!is_expired(0, 60, 30));
}

#[test]
fn cutoff_of_zero_horizon_is_now() {
    assert_eq!(cutoff(100, 0), 100);
    assert_eq!(cutoff(0, 0), 0);
    assert_eq!(cutoff(u64::MAX, 1), u64::MAX - 1);
}

#[test]
fn expiry_saturates_at_the_end_of_time() {
    // [u64::MAX - 10, u64::MAX - 10 + 60) saturates to end u64::MAX.
    assert!(!is_expired(u64::MAX - 10, 60, u64::MAX - 1));
    assert!(is_expired(u64::MAX - 10, 60, u64::MAX));
    assert!(is_expired(0, 0, 0));
}
