use rand::rngs::StdRng;
use rand::SeedableRng;
use smartcore::cluster::ward::{frac_less, same_indices, Fraction};
use smartcore::error::{Failed, FailedError};
use smartcore::linalg::DenseMatrix;
use smartcore::xgboost::xgb_regression::{create_subsample_mask, mask_from_order};

#[test]
fn test_matrix_from_rows() {
    let m = DenseMatrix::from_2d_vec(&vec![vec![1, 2, 3], vec![4, 5, 6]]).unwrap();
    assert_eq!(m.shape(), (2, 3));
    assert_eq!(m.get(1, 2), 6);
    assert_eq!(m.get(0, 0), 1);
}

#[test]
fn test_matrix_ragged_rows_refused() {
    match DenseMatrix::from_2d_vec(&vec![vec![1, 2], vec![3]]) {
        Err(e) => assert_eq!(e.err, FailedError::ParametersError),
        Ok(_) => panic!("expected an error"),
    }
}

#[test]
fn test_failed_because() {
    let e = Failed::because(FailedError::ParametersError, "bad");
    assert_eq!(e.msg, "bad");
    assert_eq!(e.error(), FailedError::ParametersError);
}

#[test]
fn test_frac_less() {
    let third = Fraction { num: 1, den: 3 };
    let half = Fraction { num: 1, den: 2 };
    let two_sixths = Fraction { num: 2, den: 6 };
    assert!(frac_less(&third, &half));
    assert!(!frac_less(&half, &third));
    assert!(!frac_less(&third, &two_sixths));
    assert!(!frac_less(&two_sixths, &third));
    let big = Fraction { num: u128::MAX, den: u64::MAX as u128 };
    let bigger = Fraction { num: u128::MAX, den: (u64::MAX - 1) as u128 };
    assert!(frac_less(&big, &bigger));
}

#[test]
fn test_same_indices() {
    assert!(same_indices(&vec![1, 2], &vec![1, 2]));
    assert!(!same_indices(&vec![1, 2], &vec![2, 1]));
    assert!(!same_indices(&vec![1], &vec![1, 2]));
}

#[test]
fn test_mask_from_order() {
    let mask = mask_from_order(5, &vec![3, 0, 4, 1, 2], 2);
    assert_eq!(mask, vec![1, 0, 0, 1, 0]);
    let none = mask_from_order(3, &vec![2, 1, 0], 0);
    assert_eq!(none, vec![0, 0, 0]);
}

#[test]
fn test_create_subsample_mask_counts() {
    let mut rng = StdRng::seed_from_u64(0);
    for size in 0..=20 {
        let mask = create_subsample_mask(20, size, &mut rng);
        assert_eq!(mask.len(), 20);
        assert!(mask.iter().all(|v| *v == 0 || *v == 1));
        assert_eq!(mask.iter().filter(|v| **v == 1).count(), size);
    }
}

#[test]
fn test_create_subsample_mask_is_shuffled() {
    let mut rng = StdRng::seed_from_u64(7);
    let mask = create_subsample_mask(100, 50, &mut rng);
    let prefix: Vec<usize> = (0..100).map(|i| if i < 50 { 1 } else { 0 }).collect();
    assert_ne!(mask, prefix);
}

#[test]
fn test_create_subsample_mask_capped_at_rows() {
    let mut rng = StdRng::seed_from_u64(3);
    assert_eq!(create_subsample_mask(20, 25, &mut rng), vec![1; 20]);
    assert_eq!(create_subsample_mask(0, 4, &mut rng), Vec::<usize>::new());
}
