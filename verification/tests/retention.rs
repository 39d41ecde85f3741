use rbrb::exponential_keeping::kept_set;
use rbrb::exponential_keeping::naive_kept_set;

#[test]
fn kept_set_values() {
    assert_eq!(kept_set(2), vec![0, 1]);
    assert_eq!(kept_set(3), vec![0, 1, 2]);
    assert_eq!(kept_set(4), vec![0, 2, 3]);
    assert_eq!(kept_set(6), vec![0, 2, 4, 5]);
    assert_eq!(kept_set(8), vec![0, 4, 6, 7]);
    assert_eq!(kept_set(29), vec![0, 8, 16, 24, 26, 28]);

    assert_eq!(kept_set(9), vec![0, 4, 6, 8]);
    assert_eq!(kept_set(10), vec![0, 4, 8, 9]);
}

#[test]
fn kept_set_smallest_horizons() {
    assert_eq!(kept_set(0), Vec::<u32>::new());
    assert_eq!(kept_set(1), vec![0]);
}

#[test]
fn naive_kept_set_matches_recursion() {
    assert_eq!(naive_kept_set(0), Vec::<u32>::new());
    assert_eq!(naive_kept_set(1), vec![0]);
    assert_eq!(naive_kept_set(9), vec![0, 4, 6, 8]);
}

/// Persistence of older snapshots: every frame below a horizon that a later
/// horizon's kept-set retains was already kept at the earlier horizon.
#[test]
fn kept_set_persists_older_snapshots() {
    for total in 0u32..=100 {
        let smaller = kept_set(total);
        for increment in 0u32..=100 {
            let larger = kept_set(total + increment);
            for &n in larger.iter().filter(|&&n| n < total) {
                assert!(
                    smaller.contains(&n),
                    "frame {} wanted by kept({}) was not kept at horizon {}",
                    n,
                    total + increment,
                    total
                );
            }
        }
    }
}

/// Max gap: consecutive kept frames are never more than half the horizon
/// apart.
#[test]
fn kept_set_gaps_bounded() {
    for total in 0u32..=200 {
        let set = kept_set(total);
        let max_gap = total / 2;
        for pair in set.windows(2) {
            assert!(pair[1] - pair[0] <= max_gap, "gap too large at horizon {}", total);
        }
    }
}

/// The kept-set never shrinks as the horizon grows.
#[test]
fn kept_set_size_nondecreasing() {
    for total in 0u32..=200 {
        assert!(kept_set(total).len() <= kept_set(total + 1).len());
    }
}

#[test]
fn kept_set_is_sorted_and_unique() {
    for total in 0u32..=200 {
        let set = kept_set(total);
        for pair in set.windows(2) {
            assert!(pair[0] < pair[1]);
        }
        for &n in &set {
            assert!(n < total);
        }
    }
}
