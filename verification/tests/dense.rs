use matrix::{Conventional, Matrix};

#[test]
fn new_is_all_zero() {
    let matrix: Conventional<i32> = Conventional::new((2, 3));
    assert_eq!((matrix.rows, matrix.columns), (2, 3));
    assert_eq!(matrix.values, vec![0; 6]);
    assert!(matrix.validate());

    let square: Conventional<i32> = Conventional::new(2);
    assert_eq!(square.values, vec![0; 4]);

    let zero: Conventional<i32> = Matrix::zero((1, 2));
    assert_eq!(zero, Conventional::from_vec((1, 2), vec![0, 0]));
    assert_eq!((zero.rows(), zero.columns()), (1, 2));
}

#[test]
fn from_slice_copies_the_values() {
    let values = [1u8, 2, 3, 4, 5, 6];
    let matrix = Conventional::from_slice((3, 2), &values);
    assert_eq!(matrix.values, vec![1, 2, 3, 4, 5, 6]);
    assert_eq!(matrix, Conventional::from_vec((3, 2), values.to_vec()));
}

#[test]
fn index_goes_by_columns() {
    let matrix = Conventional::from_vec((3, 2), vec![1i64, 2, 3, 4, 5, 6]);
    assert_eq!(matrix[(0, 0)], 1);
    assert_eq!(matrix[(2, 0)], 3);
    assert_eq!(matrix[(0, 1)], 4);
    assert_eq!(matrix[(1, 1)], 5);
    assert_eq!(matrix[(2, 1)], 6);
}

#[test]
fn index_mut_writes_one_element() {
    let mut matrix = Conventional::from_vec((3, 2), vec![1i64, 2, 3, 4, 5, 6]);
    *matrix.index_mut((1, 1)) = 50;
    *matrix.index_mut((2, 0)) += 1;
    assert_eq!(matrix.values, vec![1, 2, 4, 4, 50, 6]);
}

#[test]
fn deref_gives_the_values() {
    let mut matrix = Conventional::from_vec((1, 3), vec![7u64, 8, 9]);
    assert_eq!(&*matrix, &[7, 8, 9]);
    assert_eq!(matrix.len(), 3);
    {
        let values: &mut [u64] = &mut matrix;
        values[1] = 0;
    }
    matrix.swap(0, 2);
    assert_eq!(matrix.values, vec![9, 0, 7]);
}

#[test]
fn transpose_of_square_and_wide() {
    let matrix = Conventional::from_vec(2, vec![1i16, 2, 3, 4]);
    assert_eq!(matrix.transpose().values, vec![1, 3, 2, 4]);

    let matrix = Conventional::from_vec((2, 3), vec![1i16, 2, 3, 4, 5, 6]);
    let other = matrix.transpose();
    assert_eq!((other.rows, other.columns), (3, 2));
    assert_eq!(other.values, vec![1, 3, 5, 2, 4, 6]);
    for row in 0..2 {
        for column in 0..3 {
            assert_eq!(other[(column, row)], matrix[(row, column)]);
        }
    }
    assert_eq!(other.transpose(), matrix);

    let empty: Conventional<i16> = Conventional::new((0, 3));
    let other = empty.transpose();
    assert_eq!((other.rows, other.columns), (3, 0));
}

#[test]
fn validate_tells_whether_the_values_fit_the_shape() {
    let mut matrix = Conventional::from_vec((2, 2), vec![1isize, 2, 3, 4]);
    assert!(matrix.validate());
    matrix.values.pop();
    assert!(!matrix.validate());
    matrix.rows = usize::MAX;
    matrix.columns = 2;
    assert!(!matrix.validate());
}

#[test]
fn nonzeros_of_dense_matrix() {
    let matrix = Conventional::from_vec((2, 3), vec![0usize, 0, 5, 0, 1, 0]);
    assert_eq!(matrix.nonzeros(), 2);
    let empty: Conventional<usize> = Conventional::new((0, 0));
    assert_eq!(empty.nonzeros(), 0);
}
