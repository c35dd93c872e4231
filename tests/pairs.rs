use surfaces_comparison::pairs::unordered_pairs;
use surfaces_comparison::scale::position_max_absolute;

#[test]
fn pairs_of_four_in_upper_triangular_order() {
    assert_eq!(unordered_pairs(4), vec![(0, 1), (0, 2), (0, 3), (1, 2), (1, 3), (2, 3)]);
}

#[test]
fn pairs_of_small_groups() {
    assert!(unordered_pairs(0).is_empty());
    assert!(unordered_pairs(1).is_empty());
    assert_eq!(unordered_pairs(2), vec![(0, 1)]);
}

#[test]
fn pair_count_is_n_choose_two_without_self_pairs() {
    for n in 0usize..12 {
        let pairs = unordered_pairs(n);
        assert_eq!(pairs.len(), n * n.saturating_sub(1) / 2);
        for (k, &(a, b)) in pairs.iter().enumerate() {
            assert!(a < b && b < n);
            for &(c, d) in pairs[k + 1..].iter() {
                assert!((a, b) != (c, d) && (a, b) != (d, c));
            }
        }
    }
}

fn magnitudes(v: &[f64]) -> Vec<u64> {
    v.iter().map(|x| x.abs().to_bits()).collect()
}

#[test]
fn max_absolute_position_by_magnitude() {
    assert_eq!(position_max_absolute(&magnitudes(&[1.0, -7.5, 3.0, 4.0])), 1);
    assert_eq!(position_max_absolute(&magnitudes(&[0.5])), 0);
    assert_eq!(position_max_absolute(&magnitudes(&[0.0, 0.0, 1e-300])), 2);
}

#[test]
fn max_absolute_position_first_wins_ties() {
    assert_eq!(position_max_absolute(&magnitudes(&[2.0, -8.0, 8.0, 1.0])), 1);
    assert_eq!(position_max_absolute(&vec![3, 3, 3]), 0);
}
