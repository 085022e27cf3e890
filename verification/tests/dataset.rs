use lib::dataset::Dataset;
use lib::types::VectorError;

#[test]
fn empty_dataset_is_rejected() {
    let r = Dataset::<i32>::try_new(vec![]);
    assert!(matches!(r, Err(VectorError::EmptyDataset)));
}

#[test]
fn first_mismatching_row_is_reported() {
    let r = Dataset::try_new(vec![vec![1, 2], vec![3, 4], vec![5], vec![6, 7, 8]]);
    assert!(matches!(
        r,
        Err(VectorError::DimensionMismatch { expected: 2, actual: 1 })
    ));
}

#[test]
fn rectangular_dataset_is_accepted() {
    let ds = match Dataset::try_new(vec![vec![1, 2, 3], vec![4, 5, 6]]) {
        Ok(ds) => ds,
        Err(e) => panic!("unexpected error {:?}", e),
    };
    assert_eq!(ds.len(), 2);
    assert!(!ds.is_empty());
    assert_eq!(ds.dimension(), 3);
    assert_eq!(ds.vector(1), &[4, 5, 6]);
    assert_eq!(ds.vectors().len(), 2);
    assert_eq!(ds.vectors()[0], vec![1, 2, 3]);
}

#[test]
fn zero_length_rows_are_accepted() {
    let ds = match Dataset::<i32>::try_new(vec![vec![], vec![]]) {
        Ok(ds) => ds,
        Err(e) => panic!("unexpected error {:?}", e),
    };
    assert_eq!(ds.dimension(), 0);
}

#[test]
fn query_length_is_checked() {
    let ds = match Dataset::try_new(vec![vec![1, 2]]) {
        Ok(ds) => ds,
        Err(e) => panic!("unexpected error {:?}", e),
    };
    assert_eq!(ds.check_query_len(2), Ok(()));
    assert_eq!(
        ds.check_query_len(3),
        Err(VectorError::DimensionMismatch { expected: 2, actual: 3 })
    );
}
