use itoa_bench::timing::{hundredths_per_op, BestTrial};

#[test]
fn best_trial_keeps_minimum() {
    let mut best = BestTrial::new();
    assert_eq!(best.best_nanos, None);
    best.record(500);
    best.record(300);
    best.record(400);
    assert_eq!(best.best_nanos, Some(300));
}

#[test]
fn per_op_rounded_to_hundredths() {
    assert_eq!(hundredths_per_op(1000, 2, 3), Some(16667));
    assert_eq!(hundredths_per_op(2500, 25, 100), Some(100));
    assert_eq!(hundredths_per_op(1, 1, 3), Some(33));
    assert_eq!(hundredths_per_op(5, 0, 3), None);
    assert_eq!(hundredths_per_op(5, 3, 0), None);
    assert_eq!(hundredths_per_op(u128::MAX, 1, 1), None);
}
