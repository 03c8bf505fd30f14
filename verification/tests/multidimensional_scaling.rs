use eigen::multidimensional_scaling::{
    centering_entry, check_feature_count, descending_order, keeps_eigenvalue,
    keeps_eigenvector_entry, CenteringEntry, MultidimensionalScalingError,
};

fn greater_table(values: &[f64]) -> Vec<Vec<bool>> {
    values
        .iter()
        .map(|a| values.iter().map(|b| a > b).collect())
        .collect()
}

#[test]
fn invalid_feature_count_returns_error() {
    assert!(matches!(
        check_feature_count(0, 3),
        Err(MultidimensionalScalingError::InvalidCount)
    ));
    assert!(matches!(
        check_feature_count(4, 3),
        Err(MultidimensionalScalingError::InvalidCount)
    ));
}

#[test]
fn valid_feature_counts_are_accepted() {
    assert_eq!(check_feature_count(1, 3), Ok(()));
    assert_eq!(check_feature_count(3, 3), Ok(()));
    assert_eq!(check_feature_count(0, 0), Err(MultidimensionalScalingError::InvalidCount));
}

#[test]
fn centering_entries_follow_the_feature_block() {
    assert_eq!(centering_entry(1, 1, 3), CenteringEntry::Diagonal);
    assert_eq!(centering_entry(0, 2, 3), CenteringEntry::OffDiagonal);
    assert_eq!(centering_entry(2, 0, 3), CenteringEntry::OffDiagonal);
    assert_eq!(centering_entry(3, 3, 3), CenteringEntry::Outside);
    assert_eq!(centering_entry(0, 3, 3), CenteringEntry::Outside);
    assert_eq!(centering_entry(3, 1, 3), CenteringEntry::Outside);
}

#[test]
fn centering_rows_sum_to_zero_on_an_example() {
    // n times the centering matrix, for n = 3 features in a 4 x 4 matrix.
    let n: i64 = 3;
    for row in 0..4 {
        let mut sum: i64 = 0;
        for column in 0..4 {
            sum += match centering_entry(row, column, 3) {
                CenteringEntry::Outside => 0,
                CenteringEntry::Diagonal => n - 1,
                CenteringEntry::OffDiagonal => -1,
            };
        }
        assert_eq!(sum, 0);
    }
}

#[test]
fn eigenvalues_are_ordered_from_the_largest() {
    let order = descending_order(&greater_table(&[1.0, 3.0, 2.0]));
    assert_eq!(order, vec![1, 2, 0]);
}

#[test]
fn already_descending_eigenvalues_stay_in_place() {
    let order = descending_order(&greater_table(&[5.0, 4.0, -1.0, -7.5]));
    assert_eq!(order, vec![0, 1, 2, 3]);
}

#[test]
fn equal_eigenvalues_follow_selection_swaps() {
    // Round 0 picks index 1 (the first 3.0) and swaps it with index 0;
    // round 1 then picks the remaining 3.0 at position 2.
    let order = descending_order(&greater_table(&[1.0, 3.0, 3.0]));
    assert_eq!(order, vec![1, 2, 0]);
}

#[test]
fn empty_and_single_tables() {
    assert_eq!(descending_order(&Vec::new()), Vec::<usize>::new());
    assert_eq!(descending_order(&greater_table(&[0.5])), vec![0]);
}

#[test]
fn nan_eigenvalue_is_never_greater() {
    let order = descending_order(&greater_table(&[f64::NAN, 2.0, 4.0]));
    assert_eq!(order, vec![0, 2, 1]);
}

#[test]
fn embedding_masks() {
    assert!(keeps_eigenvalue(1, 1, 2));
    assert!(!keeps_eigenvalue(2, 2, 2));
    assert!(!keeps_eigenvalue(0, 1, 2));
    assert!(keeps_eigenvector_entry(1, 0, 2));
    assert!(!keeps_eigenvector_entry(2, 0, 2));
    assert!(!keeps_eigenvector_entry(0, 2, 2));
}

fn scaled_centering(row: usize, column: usize, n: usize) -> i64 {
    match centering_entry(row, column, n) {
        CenteringEntry::Outside => 0,
        CenteringEntry::Diagonal => n as i64 - 1,
        CenteringEntry::OffDiagonal => -1,
    }
}

#[test]
fn centering_is_symmetric_and_idempotent_on_an_example() {
    let n = 3;
    let dim = 5;
    for row in 0..dim {
        for column in 0..dim {
            assert_eq!(centering_entry(row, column, n), centering_entry(column, row, n));
            let square: i64 = (0..dim)
                .map(|k| scaled_centering(row, k, n) * scaled_centering(k, column, n))
                .sum();
            assert_eq!(square, n as i64 * scaled_centering(row, column, n));
        }
    }
}

#[test]
fn order_is_a_descending_permutation_on_an_example() {
    let values = [0.3, -2.0, 7.0, 0.3, 11.0, 5.5, -2.0, 0.0];
    let order = descending_order(&greater_table(&values));
    let mut seen = order.clone();
    seen.sort();
    assert_eq!(seen, (0..values.len()).collect::<Vec<usize>>());
    for p in 0..order.len() {
        for q in (p + 1)..order.len() {
            assert!(!(values[order[q]] > values[order[p]]));
        }
    }
    assert_eq!(values[order[0]], 11.0);
    assert_eq!(values[order[7]], -2.0);
}
