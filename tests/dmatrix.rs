use xgb_rs::dmatrix::{DMatrix, DMatrixError};

#[test]
fn create_with_matching_shape() {
    let m = DMatrix::try_from_data(&[1, 2, 3, 4, 5, 6], 2, 3).unwrap();
    assert_eq!(m.num_rows(), 2);
    assert_eq!(m.num_cols(), 3);
    assert_eq!(m.values(), &vec![1, 2, 3, 4, 5, 6]);
    assert!(DMatrix::try_from_data(&[], 0, 5).is_ok());
}

#[test]
fn create_with_wrong_shape() {
    assert_eq!(DMatrix::try_from_data(&[1, 2, 3], 2, 2).err(), Some(DMatrixError::Shape));
    assert_eq!(DMatrix::try_from_data(&[1], u64::MAX, 2).err(), Some(DMatrixError::Shape));
}

#[test]
fn labels_need_one_per_row() {
    let mut m = DMatrix::try_from_data(&[1, 2], 2, 1).unwrap();
    assert_eq!(m.try_add_label(&[1]), Err(DMatrixError::LengthMismatch));
    assert!(m.label_values().is_none());
    assert_eq!(m.try_add_label(&[1, 2]), Ok(()));
    assert_eq!(m.label_values(), Some(&vec![1, 2]));
}

#[test]
fn any_label_values_are_kept() {
    let mut m = DMatrix::try_from_data(&[1, 2], 2, 1).unwrap();
    assert_eq!(m.try_add_label(&[i64::MIN, i64::MAX]), Ok(()));
    assert_eq!(m.label_values(), Some(&vec![i64::MIN, i64::MAX]));
}

#[test]
fn empty_matrix() {
    let m = DMatrix::try_new().unwrap();
    assert_eq!(m.num_rows(), 0);
    assert_eq!(m.num_cols(), 0);
}
