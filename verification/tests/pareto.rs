use argtuner::pareto::{dominates, fast_nondominated_sort, ParetoFront};

/// A `u64` that sorts as the (non-NaN) score does.
fn key(score: f64) -> u64 {
    let bits = score.to_bits();
    if bits >> 63 == 1 {
        !bits
    } else {
        bits | (1u64 << 63)
    }
}

fn keys(v: &[f64]) -> Vec<u64> {
    v.iter().map(|s| key(*s)).collect()
}

#[test]
fn dominates_is_strict() {
    assert!(dominates(&keys(&[1.0, 2.0]), &keys(&[2.0, 3.0])));
    assert!(dominates(&keys(&[1.0, 2.0]), &keys(&[1.0, 3.0])));
    assert!(!dominates(&keys(&[2.0, 2.0]), &keys(&[1.0, 3.0])));
    assert!(!dominates(&keys(&[1.0, 2.0]), &keys(&[1.0, 2.0])));
    assert!(!dominates(&keys(&[1.0, 3.0]), &keys(&[1.0, 2.0])));
}

#[test]
fn deb_sort_finds_non_dominated_front() {
    let normalized = vec![keys(&[1.0, 2.0]), keys(&[2.0, 1.0]), keys(&[3.0, 3.0])];
    let fronts = fast_nondominated_sort(&normalized);
    assert_eq!(fronts[0], vec![0, 1]);
    assert_eq!(fronts[1], vec![2]);
}

#[test]
fn front_update_evicts_dominated() {
    let mut front = ParetoFront::new();
    front.update(0, keys(&[1.0, 2.0]));
    front.update(1, keys(&[2.0, 1.0]));
    let removed = front.update(2, keys(&[0.5, 0.5]));
    assert_eq!(removed, vec![0, 1]);
    assert_eq!(front.len(), 1);
    assert_eq!(front.trial_ids(), vec![2]);
}

#[test]
fn front_update_ignores_dominated_new_trial() {
    let mut front = ParetoFront::new();
    front.update(0, keys(&[1.0, 1.0]));
    front.update(1, keys(&[2.0, 2.0]));
    assert_eq!(front.len(), 1);
    assert_eq!(front.trial_ids(), vec![0]);
}

#[test]
fn sort_peels_fronts_in_index_order() {
    let normalized = vec![
        keys(&[3.0, 3.0]),
        keys(&[1.0, 1.0]),
        keys(&[2.0, 2.5]),
        keys(&[2.5, 2.0]),
        keys(&[-1.0, 4.0]),
    ];
    let fronts = fast_nondominated_sort(&normalized);
    assert_eq!(fronts, vec![vec![1, 4], vec![2, 3], vec![0]]);
    assert!(fast_nondominated_sort(&Vec::new()).is_empty());
    assert!(ParetoFront::default().is_empty());
}
