use hfthot_lab_core::portfolio::{hurst_window_bounds, rescaled_range_windows};

#[test]
fn hurst_window_bounds_defaults_for_short_series() {
    assert_eq!(hurst_window_bounds(500, None, None), (10, 250));
}

#[test]
fn hurst_window_bounds_defaults_for_long_series() {
    assert_eq!(hurst_window_bounds(5000, None, None), (50, 2500));
}

#[test]
fn hurst_window_bounds_keeps_given_bounds() {
    assert_eq!(hurst_window_bounds(5000, Some(3), Some(40)), (3, 40));
    assert_eq!(hurst_window_bounds(5000, None, Some(40)), (50, 40));
}

#[test]
fn rescaled_range_windows_tile_the_series() {
    let wins = rescaled_range_windows(10, 3);
    assert_eq!(wins, vec![(0, 3), (3, 6), (6, 9)]);
}

#[test]
fn rescaled_range_windows_exact_fit() {
    let wins = rescaled_range_windows(12, 4);
    assert_eq!(wins, vec![(0, 4), (4, 8), (8, 12)]);
}

#[test]
fn rescaled_range_windows_none_when_window_too_long() {
    assert!(rescaled_range_windows(5, 6).is_empty());
    assert!(rescaled_range_windows(0, 1).is_empty());
}
