use eigen::umeyama::{
    check_point_count, homogeneous_transform, keeps_point_column, reflection_correction,
    rotation_factors, UmeyamaError,
};

#[test]
fn invalid_point_count_returns_error() {
    assert!(matches!(
        check_point_count(0, 4),
        Err(UmeyamaError::InvalidPointCount)
    ));
    assert!(matches!(
        check_point_count(5, 4),
        Err(UmeyamaError::InvalidPointCount)
    ));
}

#[test]
fn valid_point_counts_are_accepted() {
    assert_eq!(check_point_count(1, 4), Ok(()));
    assert_eq!(check_point_count(4, 4), Ok(()));
}

#[test]
fn only_columns_in_use_are_kept() {
    assert!(keeps_point_column(0, 2));
    assert!(keeps_point_column(1, 2));
    assert!(!keeps_point_column(2, 2));
}

#[test]
fn missing_factor_is_invalid_svd() {
    assert_eq!(rotation_factors(Some(1), Some(2)), Ok((1, 2)));
    assert_eq!(rotation_factors::<i32, i32>(None, Some(2)), Err(UmeyamaError::InvalidSvd));
    assert_eq!(rotation_factors::<i32, i32>(Some(1), None), Err(UmeyamaError::InvalidSvd));
    assert_eq!(rotation_factors::<i32, i32>(None, None), Err(UmeyamaError::InvalidSvd));
}

#[test]
fn reflection_correction_flips_the_last_axis() {
    let m = reflection_correction(3, 0.0, 1.0, -1.0);
    assert_eq!(
        m,
        vec![
            vec![1.0, 0.0, 0.0],
            vec![0.0, 1.0, 0.0],
            vec![0.0, 0.0, -1.0],
        ]
    );
    assert_eq!(reflection_correction(1, 0.0, 1.0, 1.0), vec![vec![1.0]]);
}

#[test]
fn homogeneous_transform_layout() {
    let rotation = vec![vec![0.0, -1.0], vec![1.0, 0.0]];
    let translation = vec![3.0, 4.0];
    let m = homogeneous_transform(&rotation, &translation, 0.0, 1.0);
    assert_eq!(
        m,
        vec![
            vec![0.0, -1.0, 3.0],
            vec![1.0, 0.0, 4.0],
            vec![0.0, 0.0, 1.0],
        ]
    );
}

#[test]
fn homogeneous_transform_of_empty_rotation() {
    let m = homogeneous_transform::<f64>(&Vec::new(), &Vec::new(), 0.0, 1.0);
    assert_eq!(m, vec![vec![1.0]]);
}
