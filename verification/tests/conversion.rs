use matrix::storage::compressed::Format;
use matrix::{Compressed, Conventional, Diagonal};

#[test]
fn round_trip_without_stored_zeros() {
    let matrix = Compressed {
        rows: 5,
        columns: 7,
        nonzeros: 5,
        format: Format::Column,
        values: vec![1i32, 2, 3, 4, 5],
        indices: vec![1, 0, 3, 1, 4],
        offsets: vec![0, 0, 0, 1, 2, 2, 3, 5],
    };
    let dense = Conventional::from_compressed(&matrix);
    assert_eq!(Compressed::from_conventional(&dense), matrix);
}

#[test]
fn round_trip_from_row_format_gives_column_format() {
    let matrix = Compressed {
        rows: 3,
        columns: 4,
        nonzeros: 4,
        format: Format::Row,
        values: vec![10i32, 20, 30, 40],
        indices: vec![0, 3, 1, 2],
        offsets: vec![0, 2, 2, 4],
    };
    let dense = Conventional::from_compressed(&matrix);
    assert_eq!(dense.values, vec![10, 0, 0, 0, 0, 30, 0, 0, 40, 20, 0, 0]);
    let back = Compressed::from_conventional(&dense);
    assert_eq!(
        back,
        Compressed {
            rows: 3,
            columns: 4,
            nonzeros: 4,
            format: Format::Column,
            values: vec![10, 30, 40, 20],
            indices: vec![0, 2, 2, 0],
            offsets: vec![0, 1, 2, 3, 4],
        }
    );
    for row in 0..3 {
        for column in 0..4 {
            assert_eq!(back.get((row, column)), matrix.get((row, column)));
        }
    }
}

#[test]
fn round_trip_loses_stored_zeros() {
    let mut matrix: Compressed<i32> = Compressed::new((2, 2), Format::Column);
    matrix.set((0, 0), 7);
    matrix.set((1, 1), 0);
    assert_eq!(matrix.nonzeros, 2);
    let dense = Conventional::from_compressed(&matrix);
    assert_eq!(dense.values, vec![7, 0, 0, 0]);
    let back = Compressed::from_conventional(&dense);
    assert_eq!(back.nonzeros, 1);
    assert_eq!(back.values, vec![7]);
    assert_eq!(back.indices, vec![0]);
    assert_eq!(back.offsets, vec![0, 1, 1]);
}

#[test]
fn from_conventional_of_zeros_stores_nothing() {
    let dense: Conventional<u16> = Conventional::new((3, 2));
    let matrix = Compressed::from_conventional(&dense);
    assert_eq!(matrix.nonzeros, 0);
    assert_eq!(matrix.offsets, vec![0, 0, 0]);
    assert_eq!((matrix.rows, matrix.columns), (3, 2));

    let empty: Conventional<u16> = Conventional::new((0, 4));
    let matrix = Compressed::from_conventional(&empty);
    assert_eq!(matrix.offsets, vec![0, 0, 0, 0, 0]);
}

#[test]
fn from_conventional_of_full_matrix() {
    let dense = Conventional::from_vec((2, 3), vec![1u8, 2, 3, 4, 5, 6]);
    let matrix = Compressed::from_conventional(&dense);
    assert_eq!(matrix.values, vec![1, 2, 3, 4, 5, 6]);
    assert_eq!(matrix.indices, vec![0, 1, 0, 1, 0, 1]);
    assert_eq!(matrix.offsets, vec![0, 2, 4, 6]);
}

#[test]
fn from_diagonal_with_fewer_values() {
    let matrix = Compressed::from_diagonal(Diagonal::from_vec((4, 5), vec![7i64, 8]));
    assert_eq!(
        matrix,
        Compressed {
            rows: 4,
            columns: 5,
            nonzeros: 2,
            format: Format::Column,
            values: vec![7, 8],
            indices: vec![0, 1],
            offsets: vec![0, 1, 2, 2, 2, 2],
        }
    );
    assert!(matrix.validate());
    assert_eq!(matrix.get((1, 1)), 8);
    assert_eq!(matrix.get((2, 2)), 0);
}

#[test]
fn from_diagonal_without_values() {
    let matrix = Compressed::from_diagonal(Diagonal::<i64>::from_vec((2, 2), vec![]));
    assert_eq!(matrix.nonzeros, 0);
    assert_eq!(matrix.offsets, vec![0, 0, 0]);
    assert!(matrix.validate());
}

#[test]
fn from_diagonal_square() {
    let matrix = Compressed::from_diagonal(Diagonal::from_vec(3, vec![1i64, 2, 3]));
    assert_eq!(matrix.indices, vec![0, 1, 2]);
    assert_eq!(matrix.offsets, vec![0, 1, 2, 3]);
    let dense = Conventional::from_compressed(&matrix);
    assert_eq!(dense.values, vec![1, 0, 0, 0, 2, 0, 0, 0, 3]);
}

#[test]
fn from_compressed_writes_stored_zeros_as_zeros() {
    let matrix = Compressed {
        rows: 2,
        columns: 2,
        nonzeros: 2,
        format: Format::Row,
        values: vec![0i8, -3],
        indices: vec![1, 0],
        offsets: vec![0, 1, 2],
    };
    let dense = Conventional::from_compressed(&matrix);
    assert_eq!(dense, Conventional::from_vec((2, 2), vec![0, -3, 0, 0]));
}
