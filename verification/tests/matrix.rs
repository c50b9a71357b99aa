use algoprims::matrix::matrix_multiply;
use algoprims::Error;

#[test]
fn identity_leaves_matrix_unchanged() {
    let ident = vec![1, 0, 0, 1];
    let b = vec![7, -3, 42, 5];
    let r = matrix_multiply(&ident, &b, 2, 2, 2).unwrap();
    assert_eq!(r, b);
}

#[test]
fn mismatched_dimensions_are_invalid() {
    let a = vec![1, 2, 3, 4, 5];
    let b = vec![1, 2, 3, 4, 5, 6];
    assert!(matches!(matrix_multiply(&a, &b, 2, 3, 2), Err(Error::InvalidArgument)));
    let a2 = vec![1, 2, 3, 4, 5, 6];
    let b2 = vec![1, 2, 3, 4, 5];
    assert!(matches!(matrix_multiply(&a2, &b2, 2, 3, 2), Err(Error::InvalidArgument)));
}

#[test]
fn known_square_product() {
    let a = vec![1, 2, 3, 4];
    let b = vec![5, 6, 7, 8];
    let r = matrix_multiply(&a, &b, 2, 2, 2).unwrap();
    assert_eq!(r, vec![19, 22, 43, 50]);
}

#[test]
fn rectangular_product() {
    let a = vec![1, 2, 3, 4, 5, 6];
    let b = vec![7, 8, 9, 10, 11, 12];
    let r = matrix_multiply(&a, &b, 2, 3, 2).unwrap();
    assert_eq!(r, vec![58, 64, 139, 154]);
}

#[test]
fn empty_product() {
    let a: Vec<i64> = vec![];
    let b: Vec<i64> = vec![];
    let r = matrix_multiply(&a, &b, 0, 0, 0).unwrap();
    assert_eq!(r, Vec::<i64>::new());
}
