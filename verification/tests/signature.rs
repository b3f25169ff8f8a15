use hfthot_lab_core::signature::lead_lag_transform;

#[test]
fn test_lead_lag_length() {
    let prices = vec![1.0, 2.0, 3.0, 4.0];
    let ll = lead_lag_transform(&prices);
    // n prices → 2n-1 points
    assert_eq!(ll.len(), 2 * prices.len() - 1);
}

#[test]
fn test_lead_lag_diagonal_start_end() {
    let prices = vec![10.0, 11.0, 12.0];
    let ll = lead_lag_transform(&prices);
    // First and last should be on the diagonal
    assert_eq!(ll[0].0, ll[0].1, "start must be diagonal");
    assert_eq!(ll.last().unwrap().0, ll.last().unwrap().1, "end diagonal");
}

#[test]
fn lead_lag_interleaves_lead_and_lag() {
    let ll = lead_lag_transform(&[1.0, 2.0, 3.0]);
    assert_eq!(ll, vec![(1.0, 1.0), (2.0, 1.0), (2.0, 2.0), (3.0, 2.0), (3.0, 3.0)]);
}

#[test]
fn lead_lag_of_empty_series_is_empty() {
    let ll = lead_lag_transform::<f64>(&[]);
    assert!(ll.is_empty());
}

#[test]
fn lead_lag_of_single_price_is_one_diagonal_point() {
    assert_eq!(lead_lag_transform(&[5.5]), vec![(5.5, 5.5)]);
}
