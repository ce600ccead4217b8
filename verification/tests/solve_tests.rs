use plate_solver::solve::{candidate_key_ranges, candidate_keys, combinations_4, too_few_status, Combinations4, SolveStatus};

#[test]
fn solve_status_variants() {
    let statuses = [
        SolveStatus::MatchFound,
        SolveStatus::NoMatch,
        SolveStatus::Timeout,
        SolveStatus::Cancelled,
        SolveStatus::TooFew,
    ];
    for s in &statuses {
        let _ = format!("{:?}", s);
    }
}

#[test]
fn fov_estimate_defaults_to_db_midpoint() {
    let min_fov = 10.0f64;
    let max_fov = 30.0f64;
    let midpoint = (min_fov + max_fov) / 2.0;
    assert_eq!(midpoint, 20.0);
}

#[test]
fn cluster_bust_separation_formula() {
    let width = 1920.0_f64;
    let vsfov = 150.0_f64;
    let expected = width * 0.6 / vsfov.sqrt();
    let fov_initial_rad = 11.0_f64.to_radians();
    let sep = width * 0.6 / vsfov.sqrt();
    let _ = fov_initial_rad;
    assert!((sep - expected).abs() < 1e-10);
    assert!(sep > 90.0 && sep < 100.0);
}

#[test]
fn combinations_4_basic() {
    assert_eq!(combinations_4(0).collect_all(), Vec::<[usize; 4]>::new());
    assert_eq!(combinations_4(3).collect_all(), Vec::<[usize; 4]>::new());
    let combos: Vec<[usize; 4]> = combinations_4(4).collect_all();
    assert_eq!(combos.len(), 1);
    assert_eq!(combos[0], [0, 1, 2, 3]);
}

#[test]
fn combinations_4_five_elements() {
    let combos: Vec<[usize; 4]> = combinations_4(5).collect_all();
    assert_eq!(combos.len(), 5);
    assert_eq!(combos[0], [0, 1, 2, 3]);
    assert_eq!(combos[1], [0, 1, 2, 4]);
    assert_eq!(combos[2], [0, 1, 3, 4]);
    assert_eq!(combos[3], [0, 2, 3, 4]);
    assert_eq!(combos[4], [1, 2, 3, 4]);
}

#[test]
fn combinations_count_and_order() {
    // C(8,4) = 70, strictly increasing in lexicographic order, each increasing.
    let combos = combinations_4(8).collect_all();
    assert_eq!(combos.len(), 70);
    for w in combos.windows(2) {
        assert!(w[0] < w[1]);
    }
    for c in &combos {
        assert!(c[0] < c[1] && c[1] < c[2] && c[2] < c[3] && c[3] < 8);
    }
    assert_eq!(*combos.last().unwrap(), [4, 5, 6, 7]);
}

#[test]
fn combinations_iterate_lazily() {
    let mut it = Combinations4::new(5);
    assert_eq!(it.next(), Some([0, 1, 2, 3]));
    assert_eq!(it.next(), Some([0, 1, 2, 4]));
    let rest = it.collect_all();
    assert_eq!(rest.len(), 3);
    assert_eq!(it.next(), None);
    assert_eq!(it.next(), None);
}

#[test]
fn key_ranges_are_clamped() {
    let r = candidate_key_ranges([0, 1, 5, 9, 10], 2, 10);
    assert_eq!(r, [[0, 2], [0, 3], [3, 7], [7, 10], [8, 10]]);
    let r = candidate_key_ranges([4, 4, 4, 4, 4], 0, 50);
    assert_eq!(r, [[4, 4]; 5]);
}

#[test]
fn candidate_keys_nearest_first() {
    let center = [5, 5, 5, 5, 5];
    let ranges = candidate_key_ranges(center, 1, 50);
    let keys = candidate_keys(center, ranges);
    // 3^5 keys in the box.
    assert_eq!(keys.len(), 243);
    assert_eq!(keys[0], ([5, 5, 5, 5, 5], 0));
    // Distance-1 keys follow in lexicographic order.
    assert_eq!(keys[1], ([4, 5, 5, 5, 5], 1));
    assert_eq!(keys[2], ([5, 4, 5, 5, 5], 1));
    assert_eq!(keys[10], ([6, 5, 5, 5, 5], 1));
    assert_eq!(keys[242], ([6, 6, 6, 6, 6], 5));
    for w in keys.windows(2) {
        assert!(w[0].1 < w[1].1 || (w[0].1 == w[1].1 && w[0].0 < w[1].0));
    }
    for (k, d) in &keys {
        let expect: i64 = k.iter().zip(center.iter()).map(|(&a, &c)| (a as i64 - c as i64).pow(2)).sum();
        assert_eq!(*d, expect);
    }
}

#[test]
fn candidate_keys_clamped_box() {
    let center = [0, 0, 3, 0, 0];
    let ranges = candidate_key_ranges(center, 1, 3);
    assert_eq!(ranges, [[0, 1], [0, 1], [2, 3], [0, 1], [0, 1]]);
    let keys = candidate_keys(center, ranges);
    assert_eq!(keys.len(), 32);
    assert_eq!(keys[0], ([0, 0, 3, 0, 0], 0));
    assert_eq!(keys[31], ([1, 1, 2, 1, 1], 5));
    // An empty box yields no keys.
    assert!(candidate_keys(center, [[2, 1], [0, 0], [0, 0], [0, 0], [0, 0]]).is_empty());
}

#[test]
fn too_few_centroids() {
    assert_eq!(too_few_status(0), Some(SolveStatus::TooFew));
    assert_eq!(too_few_status(3), Some(SolveStatus::TooFew));
    assert_eq!(too_few_status(4), None);
}
