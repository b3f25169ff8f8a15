use hfthot_lab_core::meanrev::rebalance_schedule;

#[test]
fn rebalance_schedule_equal_periods_drop_remainder() {
    assert_eq!(rebalance_schedule(10, 3), vec![(0, 3), (3, 6), (6, 9)]);
}

#[test]
fn rebalance_schedule_exact_split() {
    assert_eq!(rebalance_schedule(12, 4), vec![(0, 3), (3, 6), (6, 9), (9, 12)]);
}

#[test]
fn rebalance_schedule_more_periods_than_steps() {
    // Period length is at least one step; periods past the end are dropped.
    assert_eq!(rebalance_schedule(2, 5), vec![(0, 1), (1, 2)]);
}

#[test]
fn rebalance_schedule_single_period_covers_history() {
    assert_eq!(rebalance_schedule(7, 1), vec![(0, 7)]);
}

#[test]
fn rebalance_schedule_empty_inputs() {
    assert!(rebalance_schedule(0, 3).is_empty());
    assert!(rebalance_schedule(5, 0).is_empty());
}
