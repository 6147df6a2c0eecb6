use tracy::math::MatrixN;

fn abs_diff_eq(a: &MatrixN<f32>, b: &MatrixN<f32>, max_abs_diff: f32) -> bool {
    a.order() == b.order() && a.iter().zip(b.iter()).all(|(x, y)| (x - y).abs() <= max_abs_diff)
}

fn identity(n: usize) -> MatrixN<f32> {
    MatrixN::identity_with(n, 0.0, 1.0)
}

#[test]
fn constructing_and_inspecting_a_4x4_matrix() {
    let m = MatrixN::from_row_slice(
        4,
        &[
            1., 2., 3., 4., 5.5, 6.5, 7.5, 8.5, 9., 10., 11., 12., 13.5, 14.5, 15.5, 16.5,
        ],
    );

    for (pos, val) in vec![
        ((0, 0), 1.),
        ((0, 3), 4.),
        ((1, 0), 5.5),
        ((1, 2), 7.5),
        ((2, 2), 11.),
        ((3, 0), 13.5),
        ((3, 2), 15.5),
    ]
    .into_iter()
    {
        let got: f32 = *m.get(pos).unwrap();
        assert!((got - val).abs() < 1e-4);
    }
}

#[test]
fn a_2x2_matrix_ought_to_be_representable() {
    let m = MatrixN::from_row_slice(2, &[-3., 5., 1., -2.]);

    for (pos, val) in vec![((0, 0), -3.), ((0, 1), 5.), ((1, 0), 1.), ((1, 1), -2.)].into_iter() {
        let got: f32 = *m.get(pos).unwrap();
        assert!((got - val).abs() < 1e-4);
    }
}

#[test]
fn a_3x3_matrix_ought_to_be_representable() {
    let m = MatrixN::from_row_slice(3, &[-3., 5., 0., 1., -2., -7., 0., 1., 1.]);

    for (pos, val) in vec![((0, 0), -3.), ((1, 1), -2.), ((2, 2), 1.)].into_iter() {
        let got: f32 = *m.get(pos).unwrap();
        assert!((got - val).abs() < 1e-4);
    }
}

#[test]
fn matrix_equality_with_identical_matrices() {
    let a = MatrixN::from_row_slice(
        4,
        &[
            1., 2., 3., 4., 5., 6., 7., 8., 9., 8., 7., 6., 5., 4., 3., 2.,
        ],
    );

    let b = MatrixN::from_row_slice(
        4,
        &[
            1., 2., 3., 4., 5., 6., 7., 8., 9., 8., 7., 6., 5., 4., 3., 2.,
        ],
    );

    assert!(abs_diff_eq(&a, &b, 1e-4));
}

#[test]
fn matrix_equality_with_different_matrices() {
    let a = MatrixN::from_row_slice(
        4,
        &[
            1., 2., 3., 4., 5., 6., 7., 8., 9., 8., 7., 6., 5., 4., 3., 2.,
        ],
    );

    let b = MatrixN::from_row_slice(
        4,
        &[
            2., 3., 4., 5., 6., 7., 8., 9., 8., 7., 6., 5., 4., 3., 2., 1.,
        ],
    );

    assert!(!abs_diff_eq(&a, &b, 1e-4));
}

#[test]
fn transposing_a_matrix() {
    let a = MatrixN::from_row_slice(
        4,
        &[
            0., 9., 3., 0., 9., 8., 0., 8., 1., 8., 5., 3., 0., 0., 5., 8.,
        ],
    );

    let transpose = MatrixN::from_row_slice(
        4,
        &[
            0., 9., 1., 0., 9., 8., 8., 0., 3., 0., 5., 5., 0., 8., 3., 8.,
        ],
    );

    assert!(abs_diff_eq(&a.transpose(), &transpose, 1e-4));
}

#[test]
fn transposing_the_identity_matrix() {
    assert!(abs_diff_eq(&identity(4).transpose(), &identity(4), 1e-4));
}

#[test]
fn a_submatrix_of_a_3x3_matrix_is_a_2x2_matrix() {
    let a = MatrixN::from_row_slice(3, &[1., 5., 0., -3., 2., 7., 0., 6., -3.]);

    assert!(abs_diff_eq(
        &a.submatrix(0, 2),
        &MatrixN::from_row_slice(2, &[-3., 2., 0., 6.]),
        1e-4
    ));
}

#[test]
fn a_submatrix_of_a_4x4_matrix_is_a_3x3_matrix() {
    let a = MatrixN::from_row_slice(
        4,
        &[
            -6., 1., 1., 6., -8., 5., 8., 6., -1., 0., 8., 2., -7., 1., -1., 1.,
        ],
    );

    let exp = MatrixN::from_row_slice(3, &[-6., 1., 6., -8., 8., 6., -7., -1., 1.]);

    assert!(abs_diff_eq(&a.submatrix(2, 1), &exp, 1e-4));
}
