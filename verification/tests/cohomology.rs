use hfthot_lab_core::geometric_signals::cohomology::coboundary_signs;

#[test]
fn coboundary_of_triangle() {
    // Triangle: edges (0,1), (1,2), (2,0)
    let delta = coboundary_signs(&[0, 1, 1, 2, 2, 0], 3);
    assert_eq!(delta.len(), 3 * 3);
    assert_eq!(delta, vec![-1, 1, 0, 0, -1, 1, 1, 0, -1]);
}

#[test]
fn coboundary_rows_sum_to_zero() {
    let delta = coboundary_signs(&[0, 3, 2, 1, 1, 0, 3, 2], 4);
    for row in delta.chunks(4) {
        assert_eq!(row.iter().map(|&s| s as i32).sum::<i32>(), 0);
    }
}

#[test]
fn coboundary_self_loop_keeps_plus_one() {
    assert_eq!(coboundary_signs(&[1, 1], 3), vec![0, 1, 0]);
}

#[test]
fn coboundary_ignores_unpaired_entry() {
    assert_eq!(coboundary_signs(&[0, 1, 2], 2), vec![-1, 1]);
}

#[test]
fn coboundary_without_edges_is_empty() {
    assert!(coboundary_signs(&[], 5).is_empty());
}
