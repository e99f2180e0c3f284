use panphon2::error::FeatureError;
use panphon2::features::{binarize, binarize_vector, sum_rows};

#[test]
fn binarize_vector_raises_negative_values_to_zero() {
    assert_eq!(binarize_vector(&vec![-1, 0, 1, 1, -1]), vec![0, 0, 1, 1, 0]);
}

#[test]
fn binarize_vector_of_nothing_is_nothing() {
    assert_eq!(binarize_vector(&Vec::new()), Vec::<i8>::new());
}

#[test]
fn binarize_takes_the_larger_of_value_and_zero() {
    assert_eq!(binarize_vector(&vec![-128, -2, 2, 127]), vec![0, 0, 2, 127]);
}

#[test]
fn binarize_maps_each_row() {
    let m = vec![vec![-1, -1, 1], vec![1, 0, -1], vec![]];
    assert_eq!(binarize(&m), vec![vec![0, 0, 1], vec![1, 0, 0], vec![]]);
}

#[test]
fn binarize_of_empty_matrix_is_empty() {
    assert_eq!(binarize(&Vec::new()), Vec::<Vec<i8>>::new());
}

#[test]
fn binarize_leaves_binary_matrix_unchanged() {
    let m = vec![vec![0, 1, 1, 0], vec![1, 1, 0, 0], vec![0, 0, 0, 0]];
    assert_eq!(binarize(&m), m);
}

#[test]
fn binarize_twice_is_binarize_once() {
    let m = vec![vec![-1, 0, 1], vec![1, -1, -1]];
    let once = binarize(&m);
    assert_eq!(binarize(&once), once);
}

#[test]
fn sum_rows_adds_column_by_column() {
    let m = vec![vec![0, 0, 1], vec![1, 0, 1], vec![1, 0, 1]];
    assert_eq!(sum_rows(&m), Ok(vec![2, 0, 3]));
}

#[test]
fn sum_rows_of_one_row_is_that_row() {
    assert_eq!(sum_rows(&vec![vec![1, 0, 1, 1]]), Ok(vec![1, 0, 1, 1]));
}

#[test]
fn sum_rows_of_empty_matrix_is_refused() {
    assert_eq!(sum_rows(&Vec::new()), Err(FeatureError::EmptyInput));
}

#[test]
fn sum_rows_keeps_the_columns_that_every_row_has() {
    let m = vec![vec![1, 1, 1, 1], vec![1, 0], vec![0, 1, 1]];
    assert_eq!(sum_rows(&m), Ok(vec![2, 2]));
}

#[test]
fn sum_rows_of_rows_without_columns_is_empty() {
    assert_eq!(sum_rows(&vec![vec![], vec![]]), Ok(Vec::new()));
}

#[test]
fn sum_rows_counts_many_rows() {
    let m: Vec<Vec<i8>> = (0..300).map(|_| vec![1, 0]).collect();
    assert_eq!(sum_rows(&m), Ok(vec![300, 0]));
}

#[test]
fn error_messages_tell_the_errors_apart() {
    assert_eq!(FeatureError::UnknownPhoneme.message(), "phoneme is not in the inventory");
    assert_eq!(FeatureError::EmptyInput.message(), "no phonemes to pool");
    assert_ne!(FeatureError::UnknownPhoneme, FeatureError::EmptyInput);
}
