use oxel::planar::{best_cut, decimation_counts};

#[test]
fn decimation_removes_round_robin() {
    assert_eq!(decimation_counts(&vec![5, 3, 0, 7], 6), vec![2, 0, 0, 4]);
}

#[test]
fn decimation_within_budget_keeps_everything() {
    assert_eq!(decimation_counts(&vec![5, 3, 0, 7], 15), vec![5, 3, 0, 7]);
    assert_eq!(decimation_counts(&vec![5, 3, 0, 7], 100), vec![5, 3, 0, 7]);
}

#[test]
fn decimation_to_zero_empties_all() {
    assert_eq!(decimation_counts(&vec![4, 1, 9], 0), vec![0, 0, 0]);
    assert!(decimation_counts(&Vec::new(), 0).is_empty());
}

#[test]
fn decimation_never_exceeds_budget() {
    let lens: Vec<usize> = (0..16).map(|i| (i * 37 + 11) % 50).collect();
    let total: usize = lens.iter().sum();
    for limit in [0, 1, 7, 50, 123, total - 1, total, total + 5] {
        let keep = decimation_counts(&lens, limit);
        let kept: usize = keep.iter().sum();
        assert!(kept <= limit);
        assert_eq!(kept, total.min(limit));
        for (k, l) in keep.iter().zip(lens.iter()) {
            assert!(k <= l);
        }
    }
}

#[test]
fn decimation_first_views_lose_first() {
    assert_eq!(decimation_counts(&vec![3, 3, 3], 7), vec![2, 2, 3]);
}

#[test]
fn best_cut_is_first_largest() {
    assert_eq!(best_cut(&vec![0, 5, 3, 5]), Some(1));
    assert_eq!(best_cut(&vec![2]), Some(0));
}

#[test]
fn best_cut_of_empty_slices_is_none() {
    assert_eq!(best_cut(&vec![0, 0, 0]), None);
    assert_eq!(best_cut(&Vec::new()), None);
}
