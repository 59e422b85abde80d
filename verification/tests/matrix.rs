use srs_solver::matrix::Matrix;

#[test]
fn get_and_set() {
    let items = vec![
        vec![1, 2, 0, 3, 0, 0, 4],
        vec![0, 0, 0, 0, 2, 2, 2],
        vec![0, 1, 0, 0, 1, 0, 1],
        vec![0, 0, 0, 0, 0, 0, 0],
        vec![4, 1, 2, 0, 1, 0, 1],
    ];

    let mat = Matrix::from_dense(items);

    assert_eq!(1, mat.get(0, 0));
    assert_eq!(2, mat.get(0, 1));
    assert_eq!(0, mat.get(0, 2));
    assert_eq!(3, mat.get(0, 3));
    assert_eq!(0, mat.get(0, 4));
    assert_eq!(0, mat.get(0, 5));
    assert_eq!(4, mat.get(0, 6));

    assert_eq!(0, mat.get(1, 0));
    assert_eq!(0, mat.get(1, 1));
    assert_eq!(0, mat.get(1, 2));
    assert_eq!(0, mat.get(1, 3));
    assert_eq!(2, mat.get(1, 4));
    assert_eq!(2, mat.get(1, 5));
    assert_eq!(2, mat.get(1, 6));

    assert_eq!(0, mat.get(2, 0));
    assert_eq!(1, mat.get(2, 1));
    assert_eq!(0, mat.get(2, 2));
    assert_eq!(0, mat.get(2, 3));
    assert_eq!(1, mat.get(2, 4));
    assert_eq!(0, mat.get(2, 5));
    assert_eq!(1, mat.get(2, 6));

    assert_eq!(0, mat.get(3, 0));
    assert_eq!(0, mat.get(3, 1));
    assert_eq!(0, mat.get(3, 2));
    assert_eq!(0, mat.get(3, 3));
    assert_eq!(0, mat.get(3, 4));
    assert_eq!(0, mat.get(3, 5));
    assert_eq!(0, mat.get(3, 6));

    assert_eq!(4, mat.get(4, 0));
    assert_eq!(1, mat.get(4, 1));
    assert_eq!(2, mat.get(4, 2));
    assert_eq!(0, mat.get(4, 3));
    assert_eq!(1, mat.get(4, 4));
    assert_eq!(0, mat.get(4, 5));
    assert_eq!(1, mat.get(4, 6));
}

#[test]
fn outside_the_matrix_is_the_default() {
    let mat = Matrix::from_dense(vec![vec![0u8, 7], vec![9]]);
    assert_eq!(mat.n_rows, 2);
    assert_eq!(mat.n_cols, 2);
    assert_eq!(mat.get(0, 1), 7);
    assert_eq!(mat.get(1, 0), 9);
    assert_eq!(mat.get(1, 1), 0);
    assert_eq!(mat.get(5, 5), 0);
    let empty: Matrix<i64> = Matrix::from_dense(vec![]);
    assert_eq!(empty.n_rows, 0);
    assert_eq!(empty.n_cols, 0);
    assert_eq!(empty.get(0, 0), 0);
}
