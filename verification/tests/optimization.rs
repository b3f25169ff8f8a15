use hfthot_lab_core::optimization::{bin_counts, joint_bin_counts, viterbi_backtrack, select_donors};

#[test]
fn viterbi_backtrack_follows_pointers() {
    // psi[t][s]: best predecessor of state s at time t (row 0 is unused).
    let psi = vec![vec![0, 0], vec![1, 0], vec![1, 1], vec![0, 1]];
    let path = viterbi_backtrack(&psi, 2, 1);
    // path[3] = 1, path[2] = psi[3][1] = 1, path[1] = psi[2][1] = 1, path[0] = psi[1][1] = 0
    assert_eq!(path, vec![0, 1, 1, 1]);
}

#[test]
fn viterbi_backtrack_single_step() {
    let psi = vec![vec![0, 0, 0]];
    assert_eq!(viterbi_backtrack(&psi, 3, 2), vec![2]);
}

#[test]
fn bin_counts_counts_each_bin() {
    let counts = bin_counts(&[0, 2, 2, 1, 2], 3);
    assert_eq!(counts, vec![1, 1, 3]);
}

#[test]
fn bin_counts_puts_overflow_in_last_bin() {
    let counts = bin_counts(&[5, 0, 9], 2);
    assert_eq!(counts, vec![1, 2]);
    assert_eq!(counts.iter().sum::<usize>(), 3);
}

#[test]
fn bin_counts_of_nothing_is_zero() {
    assert_eq!(bin_counts(&[], 4), vec![0, 0, 0, 0]);
}

#[test]
fn joint_bin_counts_row_major() {
    let xs = [0, 1, 1, 0];
    let ys = [1, 1, 0, 1];
    let joint = joint_bin_counts(&xs, &ys, 2);
    // (0,0)=0 (0,1)=2 (1,0)=1 (1,1)=1
    assert_eq!(joint, vec![0, 2, 1, 1]);
    assert_eq!(joint.iter().sum::<usize>(), xs.len());
}

#[test]
fn joint_bin_counts_clamps_both_axes() {
    let joint = joint_bin_counts(&[7], &[3], 2);
    assert_eq!(joint, vec![0, 0, 0, 1]);
}

use hfthot_lab_core::optimization::pick_donors;

#[test]
fn pick_donors_skips_target_and_taken_donors() {
    // Others of 2 in 0..5: [0, 1, 3, 4]; draw 2 → a = 3; left [0, 1, 4];
    // draw 4 % 3 = 1 → b = 1; left [0, 4]; draw 3 % 2 = 1 → c = 4.
    assert_eq!(pick_donors(5, 2, (2, 4, 3)), (3, 1, 4));
}

#[test]
fn pick_donors_are_distinct_for_every_draw() {
    let pop = 6;
    for target in 0..pop {
        for d0 in 0..pop - 1 {
            for d1 in 0..pop - 1 {
                for d2 in 0..pop - 1 {
                    let (a, b, c) = pick_donors(pop, target, (d0, d1, d2));
                    assert!(a < pop && b < pop && c < pop);
                    assert!(a != target && b != target && c != target);
                    assert!(a != b && b != c && a != c);
                }
            }
        }
    }
}

#[test]
fn pick_donors_smallest_population() {
    // Others of 0 in 0..4: [1, 2, 3]; a = 1; left [2, 3]; b = 3; left [2]; c = 2.
    assert_eq!(pick_donors(4, 0, (0, 1, 0)), (1, 3, 2));
}

use hfthot_lab_core::optimization::quantile_segments;

#[test]
fn quantile_segments_tile_observations() {
    assert_eq!(quantile_segments(10, 3), vec![(0, 3), (3, 6), (6, 10)]);
}

#[test]
fn quantile_segments_with_fewer_observations_than_states() {
    assert_eq!(quantile_segments(2, 4), vec![(0, 0), (0, 1), (1, 1), (1, 2)]);
}

#[test]
fn quantile_segments_without_states() {
    assert!(quantile_segments(7, 0).is_empty());
}

#[test]
fn select_donors_draws_distinct_non_target_donors() {
    let mut rng = rand::thread_rng();
    for pop_size in 4..12usize {
        for target in 0..pop_size {
            for _ in 0..50 {
                let (a, b, c) = select_donors(&mut rng, pop_size, target);
                assert!(a < pop_size && b < pop_size && c < pop_size);
                assert!(a != target && b != target && c != target);
                assert!(a != b && b != c && a != c);
            }
        }
    }
}

#[test]
fn select_donors_smallest_population_uses_all_others() {
    let mut rng = rand::thread_rng();
    for _ in 0..50 {
        let (a, b, c) = select_donors(&mut rng, 4, 2);
        let mut got = vec![a, b, c];
        got.sort();
        assert_eq!(got, vec![0, 1, 3]);
    }
}
