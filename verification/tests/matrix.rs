use tracy::math::MatrixN;

#[test]
fn identity_has_ones_on_its_diagonal() {
    let m = MatrixN::identity_with(3, 0, 1);
    assert_eq!(m.order(), 3);
    assert_eq!(m.iter().copied().collect::<Vec<i32>>(), vec![1, 0, 0, 0, 1, 0, 0, 0, 1]);
}

#[test]
fn filled_matrix_has_one_value() {
    let m = MatrixN::filled(2, 7u8);
    assert_eq!(m.iter().copied().collect::<Vec<u8>>(), vec![7, 7, 7, 7]);
}

#[test]
fn elements_are_stored_column_by_column() {
    let m = MatrixN::from_column_slice(2, &[1, 2, 3, 4]);
    assert_eq!(m.get((1, 0)), Some(&2));
    assert_eq!(m.get((0, 1)), Some(&3));
    assert_eq!(m.get((2, 0)), None);
    assert_eq!(m.get((0, 2)), None);
    assert_eq!(m.get((1, 1)), Some(&4));
    assert_eq!(*m.get_unchecked((1, 1)), 4);
}

#[test]
fn row_slice_is_the_transposed_column_slice() {
    let rows = MatrixN::from_row_slice(3, &[1, 2, 3, 4, 5, 6, 7, 8, 9]);
    let columns = MatrixN::from_column_slice(3, &[1, 2, 3, 4, 5, 6, 7, 8, 9]);
    assert_eq!(rows, columns.transpose());
    assert_eq!(rows.transpose().transpose(), rows);
}

#[test]
fn elements_can_be_changed_in_place() {
    let mut m = MatrixN::filled(2, 0);
    *m.get_mut((1, 0)).unwrap() = 5;
    *m.get_unchecked_mut((0, 1)) = 6;
    assert!(m.get_mut((2, 1)).is_none());
    assert!(m.get_mut((2, 0)).is_none());
    for e in m.iter_mut() {
        *e += 1;
    }
    assert_eq!(m, MatrixN::from_column_slice(2, &[1, 6, 7, 1]));
}

#[test]
fn submatrix_of_an_order_one_matrix_may_drop_a_missing_row() {
    let m = MatrixN::filled(1, 3);
    assert_eq!(m.submatrix(0, 4).order(), 0);
    assert_eq!(m.submatrix(0, 0).iter().count(), 0);
}
