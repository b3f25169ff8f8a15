use hfthot_lab_core::geometric_signals::gauge::triangle_triples;

#[test]
fn triangles_of_three_assets() {
    assert_eq!(triangle_triples(3), vec![(0, 1, 2)]);
}

#[test]
fn triangles_of_four_assets_in_order() {
    assert_eq!(
        triangle_triples(4),
        vec![(0, 1, 2), (0, 1, 3), (0, 2, 3), (1, 2, 3)]
    );
}

#[test]
fn triangle_count_is_n_choose_3() {
    for n in 0..9usize {
        let expected = if n < 3 { 0 } else { n * (n - 1) * (n - 2) / 6 };
        assert_eq!(triangle_triples(n).len(), expected);
    }
}

use hfthot_lab_core::geometric_signals::gauge::cycle_edges;

#[test]
fn cycle_edges_close_the_loop() {
    assert_eq!(cycle_edges(&[0, 1, 2]), vec![(0, 1), (1, 2), (2, 0)]);
}

#[test]
fn cycle_edges_of_two_assets_go_there_and_back() {
    assert_eq!(cycle_edges(&[3, 5]), vec![(3, 5), (5, 3)]);
}

#[test]
fn short_cycle_has_no_edges() {
    assert!(cycle_edges(&[]).is_empty());
    assert!(cycle_edges(&[4]).is_empty());
}
