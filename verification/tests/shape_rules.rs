use sgd_linreg::error::DataError;
use sgd_linreg::shape::{check_dataset, check_dimension};

#[test]
fn equal_lengths_are_accepted() {
    assert_eq!(check_dimension(2, 2), Ok(()));
    assert_eq!(check_dimension(0, 0), Ok(()));
}

#[test]
fn shorter_input_is_a_mismatch() {
    assert_eq!(
        check_dimension(2, 1),
        Err(DataError::DimensionMismatch { expected: 2, found: 1 })
    );
}

#[test]
fn longer_input_is_a_mismatch() {
    assert_eq!(
        check_dimension(2, 3),
        Err(DataError::DimensionMismatch { expected: 2, found: 3 })
    );
}

#[test]
fn empty_input_to_a_model_with_weights_is_a_mismatch() {
    assert_eq!(
        check_dimension(4, 0),
        Err(DataError::DimensionMismatch { expected: 4, found: 0 })
    );
}

#[test]
fn uniform_dataset_is_accepted() {
    assert_eq!(check_dataset(&[3, 3, 3, 3], 4, 3), Ok(()));
}

#[test]
fn empty_dataset_is_accepted_for_any_model() {
    assert_eq!(check_dataset(&[], 0, 0), Ok(()));
    assert_eq!(check_dataset(&[], 0, 9), Ok(()));
}

#[test]
fn dataset_of_featureless_rows_fits_a_model_without_weights() {
    assert_eq!(check_dataset(&[0, 0], 2, 0), Ok(()));
}

#[test]
fn missing_target_is_a_mismatch() {
    assert_eq!(
        check_dataset(&[2, 2, 2], 2, 2),
        Err(DataError::DimensionMismatch { expected: 3, found: 2 })
    );
}

#[test]
fn target_count_is_checked_before_the_rows() {
    assert_eq!(
        check_dataset(&[2, 5], 3, 2),
        Err(DataError::DimensionMismatch { expected: 2, found: 3 })
    );
}

#[test]
fn first_row_of_wrong_length_is_reported() {
    assert_eq!(
        check_dataset(&[2, 2, 1, 2, 7], 5, 2),
        Err(DataError::DimensionMismatch { expected: 2, found: 1 })
    );
}

#[test]
fn wrong_length_in_the_last_row_is_reported() {
    assert_eq!(
        check_dataset(&[2, 2, 3], 3, 2),
        Err(DataError::DimensionMismatch { expected: 2, found: 3 })
    );
}
