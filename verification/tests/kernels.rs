use matrix::storage::compressed::Format;
use matrix::{Compressed, Conventional, Diagonal, MultiplyInto, MultiplySelf};

#[test]
fn multiply_self_drops_columns_beyond_the_diagonal() {
    let mut matrix = Compressed {
        rows: 3,
        columns: 4,
        nonzeros: 4,
        format: Format::Column,
        values: vec![1i64, 2, 3, 4],
        indices: vec![0, 2, 1, 0],
        offsets: vec![0, 2, 3, 3, 4],
    };
    let right = Diagonal::from_vec((4, 2), vec![10, 100]);
    matrix.multiply_self(&right);
    assert_eq!(
        matrix,
        Compressed {
            rows: 3,
            columns: 2,
            nonzeros: 3,
            format: Format::Column,
            values: vec![10, 20, 300],
            indices: vec![0, 2, 1],
            offsets: vec![0, 2, 3],
        }
    );
}

#[test]
fn multiply_self_in_row_format() {
    let mut matrix = Compressed {
        rows: 2,
        columns: 3,
        nonzeros: 4,
        format: Format::Row,
        values: vec![1i64, 2, 3, 4],
        indices: vec![0, 2, 1, 2],
        offsets: vec![0, 2, 4],
    };
    let right = Diagonal::from_vec((3, 3), vec![2, 3, 5]);
    matrix.multiply_self(&right);
    assert_eq!(matrix.values, vec![2, 10, 9, 20]);
    assert_eq!(matrix.indices, vec![0, 2, 1, 2]);
    assert_eq!(matrix.offsets, vec![0, 2, 4]);
    assert_eq!((matrix.rows, matrix.columns), (2, 3));
}

#[test]
fn multiply_self_by_a_diagonal_with_a_zero() {
    let mut matrix = Compressed {
        rows: 2,
        columns: 2,
        nonzeros: 2,
        format: Format::Column,
        values: vec![6u32, 7],
        indices: vec![0, 1],
        offsets: vec![0, 1, 2],
    };
    let right = Diagonal::from_vec((2, 2), vec![0, 3]);
    matrix.multiply_self(&right);
    assert_eq!(matrix.nonzeros, 2);
    assert_eq!(matrix.values, vec![0, 21]);
}

#[test]
fn multiply_self_of_an_empty_matrix() {
    let mut matrix: Compressed<u32> = Compressed::new((2, 3), Format::Column);
    let right = Diagonal::from_vec((3, 5), vec![1, 2, 3]);
    matrix.multiply_self(&right);
    assert_eq!((matrix.rows, matrix.columns), (2, 5));
    assert_eq!(matrix.offsets, vec![0; 6]);
}

#[test]
fn multiply_into_adds_to_what_is_there() {
    let matrix = Compressed {
        rows: 2,
        columns: 2,
        nonzeros: 3,
        format: Format::Column,
        values: vec![1i32, 2, 3],
        indices: vec![0, 1, 1],
        offsets: vec![0, 2, 3],
    };
    let right = vec![10, 20];
    let mut result = vec![100, 200];
    matrix.multiply_into(&right[..], &mut result[..]);
    assert_eq!(result, vec![100 + 1 * 10, 200 + 2 * 10 + 3 * 20]);

    matrix.multiply_into(&right[..], &mut result[..]);
    assert_eq!(result, vec![120, 360]);
}

#[test]
fn multiply_into_by_several_columns() {
    let matrix = Compressed::from_conventional(&Conventional::from_vec(
        (2, 3),
        vec![1i64, 0, 0, 2, 3, 0],
    ));
    let right = Conventional::from_vec((3, 2), vec![1, 1, 1, -1, 0, 2]);
    let mut result: Conventional<i64> = Conventional::new((2, 2));
    matrix.multiply_into(&right, &mut result);
    assert_eq!(result.values, vec![4, 2, 5, 0]);
}

#[test]
fn multiply_into_without_stored_elements() {
    let matrix: Compressed<i64> = Compressed::new((2, 2), Format::Column);
    let right = vec![1, 2, 3, 4];
    let mut result = vec![5, 6, 7, 8];
    matrix.multiply_into(&right[..], &mut result[..]);
    assert_eq!(result, vec![5, 6, 7, 8]);
}

#[test]
fn multiply_into_by_no_columns() {
    let matrix = Compressed {
        rows: 2,
        columns: 1,
        nonzeros: 1,
        format: Format::Column,
        values: vec![3i64],
        indices: vec![1],
        offsets: vec![0, 1],
    };
    let right: Vec<i64> = vec![];
    let mut result: Vec<i64> = vec![];
    matrix.multiply_into(&right[..], &mut result[..]);
    assert!(result.is_empty());
}
