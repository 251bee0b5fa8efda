use matrix::storage::compressed::Format;
use matrix::{Compressed, Matrix};

fn column_sample() -> Compressed<i64> {
    Compressed {
        rows: 5,
        columns: 7,
        nonzeros: 5,
        format: Format::Column,
        values: vec![1, 2, 3, 4, 5],
        indices: vec![1, 0, 3, 1, 4],
        offsets: vec![0, 0, 0, 1, 2, 2, 3, 5],
    }
}

fn row_sample() -> Compressed<i64> {
    Compressed {
        rows: 3,
        columns: 4,
        nonzeros: 4,
        format: Format::Row,
        values: vec![10, 20, 30, 40],
        indices: vec![0, 3, 1, 2],
        offsets: vec![0, 2, 2, 4],
    }
}

fn triples(matrix: &Compressed<i64>) -> Vec<(usize, usize, i64)> {
    let mut result = vec![];
    let mut iterator = matrix.iter();
    while let Some((i, j, &value)) = iterator.next() {
        result.push((i, j, value));
    }
    result
}

#[test]
fn new_stores_nothing() {
    let matrix: Compressed<i64> = Compressed::new((3, 4), Format::Column);
    assert_eq!(matrix.rows, 3);
    assert_eq!(matrix.columns, 4);
    assert_eq!(matrix.nonzeros, 0);
    assert_eq!(matrix.format, Format::Column);
    assert!(matrix.values.is_empty());
    assert!(matrix.indices.is_empty());
    assert_eq!(matrix.offsets, vec![0, 0, 0, 0, 0]);
    assert!(matrix.validate());

    let matrix: Compressed<i64> = Compressed::new((3, 4), Format::Row);
    assert_eq!(matrix.offsets, vec![0, 0, 0, 0]);
    assert!(matrix.validate());
}

#[test]
fn new_without_rows_or_columns() {
    let matrix: Compressed<u8> = Compressed::new((0, 0), Format::Column);
    assert_eq!(matrix.offsets, vec![0]);
    assert!(matrix.validate());
    assert_eq!(triples_count(&matrix), 0);
}

fn triples_count(matrix: &Compressed<u8>) -> usize {
    let mut count = 0;
    let mut iterator = matrix.iter();
    while let Some(_) = iterator.next() {
        count += 1;
    }
    count
}

#[test]
fn with_capacity_reserves() {
    let matrix: Compressed<i64> = Compressed::with_capacity((3, 4), Format::Column, 10);
    assert_eq!(matrix.nonzeros, 0);
    assert!(matrix.values.capacity() >= 10);
    assert!(matrix.indices.capacity() >= 10);
    assert_eq!(matrix.offsets, vec![0, 0, 0, 0, 0]);
}

#[test]
fn zero_is_stored_by_columns() {
    let matrix: Compressed<i64> = Matrix::zero((2, 3));
    assert_eq!(matrix.format, Format::Column);
    assert_eq!(matrix.rows(), 2);
    assert_eq!(matrix.columns(), 3);
    assert_eq!(matrix.offsets, vec![0, 0, 0, 0]);

    let square: Compressed<i64> = Matrix::zero(4);
    assert_eq!((square.rows(), square.columns()), (4, 4));
}

#[test]
fn get_reads_stored_and_unstored() {
    let matrix = column_sample();
    assert_eq!(matrix.get((1, 2)), 1);
    assert_eq!(matrix.get((0, 3)), 2);
    assert_eq!(matrix.get((3, 5)), 3);
    assert_eq!(matrix.get((1, 6)), 4);
    assert_eq!(matrix.get((4, 6)), 5);
    assert_eq!(matrix.get((0, 0)), 0);
    assert_eq!(matrix.get((0, 6)), 0);
    assert_eq!(matrix.get((2, 6)), 0);
    assert_eq!(matrix.get((4, 5)), 0);
}

#[test]
fn get_in_row_format() {
    let matrix = row_sample();
    assert_eq!(matrix.get((0, 0)), 10);
    assert_eq!(matrix.get((0, 3)), 20);
    assert_eq!(matrix.get((2, 1)), 30);
    assert_eq!(matrix.get((2, 2)), 40);
    assert_eq!(matrix.get((1, 1)), 0);
    assert_eq!(matrix.get((0, 1)), 0);
    assert_eq!(matrix.get((2, 3)), 0);
}

#[test]
fn get_after_set_gives_the_value() {
    for format in [Format::Column, Format::Row] {
        let mut matrix: Compressed<i64> = Compressed::new((4, 3), format);
        for row in 0..4 {
            for column in 0..3 {
                let value = (row * 3 + column) as i64 - 5;
                matrix.set((row, column), value);
                assert_eq!(matrix.get((row, column)), value);
                assert!(matrix.validate());
            }
        }
        matrix.set((2, 1), 0);
        assert_eq!(matrix.get((2, 1)), 0);
        assert_eq!(matrix.nonzeros, 12);
        assert_eq!(matrix.get((2, 0)), 1);
        assert_eq!(matrix.get((2, 2)), 3);
    }
}

#[test]
fn set_of_stored_position_keeps_the_layout() {
    let mut matrix = column_sample();
    matrix.set((1, 6), 0);
    assert_eq!(
        matrix,
        Compressed {
            rows: 5,
            columns: 7,
            nonzeros: 5,
            format: Format::Column,
            values: vec![1, 2, 3, 0, 5],
            indices: vec![1, 0, 3, 1, 4],
            offsets: vec![0, 0, 0, 1, 2, 2, 3, 5],
        }
    );
}

#[test]
fn set_of_new_position_shifts_later_offsets() {
    let mut matrix = column_sample();
    matrix.set((2, 3), 9);
    assert_eq!(
        matrix,
        Compressed {
            rows: 5,
            columns: 7,
            nonzeros: 6,
            format: Format::Column,
            values: vec![1, 2, 9, 3, 4, 5],
            indices: vec![1, 0, 2, 3, 1, 4],
            offsets: vec![0, 0, 0, 1, 3, 3, 4, 6],
        }
    );

    matrix.set((0, 0), 0);
    assert_eq!(
        matrix,
        Compressed {
            rows: 5,
            columns: 7,
            nonzeros: 7,
            format: Format::Column,
            values: vec![0, 1, 2, 9, 3, 4, 5],
            indices: vec![0, 1, 0, 2, 3, 1, 4],
            offsets: vec![0, 1, 1, 2, 4, 4, 5, 7],
        }
    );

    matrix.set((4, 6), 8);
    matrix.set((2, 6), 7);
    assert_eq!(matrix.values, vec![0, 1, 2, 9, 3, 4, 7, 8]);
    assert_eq!(matrix.indices, vec![0, 1, 0, 2, 3, 1, 2, 4]);
    assert_eq!(matrix.offsets, vec![0, 1, 1, 2, 4, 4, 5, 8]);
}

#[test]
fn set_in_row_format() {
    let mut matrix = row_sample();
    matrix.set((1, 2), 5);
    assert_eq!(
        matrix,
        Compressed {
            rows: 3,
            columns: 4,
            nonzeros: 5,
            format: Format::Row,
            values: vec![10, 20, 5, 30, 40],
            indices: vec![0, 3, 2, 1, 2],
            offsets: vec![0, 2, 3, 5],
        }
    );
}

#[test]
fn validate_accepts_what_the_operations_make() {
    let mut matrix = column_sample();
    assert!(matrix.validate());
    matrix.set((4, 0), 3);
    assert!(matrix.validate());
    matrix.retain(|_, _, &value| value != 3);
    assert!(matrix.validate());
    matrix.resize((2, 9));
    assert!(matrix.validate());
    let other = matrix.transpose();
    assert!(other.validate());
    assert!(row_sample().validate());
}

#[test]
fn validate_rejects_wrong_lengths() {
    let mut matrix = column_sample();
    matrix.nonzeros = 4;
    assert!(!matrix.validate());

    let mut matrix = column_sample();
    matrix.values.pop();
    assert!(!matrix.validate());

    let mut matrix = column_sample();
    matrix.indices.push(4);
    assert!(!matrix.validate());

    let mut matrix = column_sample();
    matrix.offsets.push(5);
    assert!(!matrix.validate());

    let mut matrix = column_sample();
    matrix.columns = 6;
    assert!(!matrix.validate());

    let mut matrix = column_sample();
    matrix.format = Format::Row;
    assert!(!matrix.validate());
}

#[test]
fn validate_rejects_wrong_offsets() {
    let mut matrix = column_sample();
    matrix.offsets[0] = 1;
    assert!(!matrix.validate());

    let mut matrix = column_sample();
    matrix.offsets[7] = 4;
    assert!(!matrix.validate());

    let mut matrix = column_sample();
    matrix.offsets[4] = 0;
    assert!(!matrix.validate());

    let mut matrix = column_sample();
    matrix.offsets[3] = 6;
    assert!(!matrix.validate());
}

#[test]
fn validate_rejects_wrong_indices() {
    let mut matrix = column_sample();
    matrix.indices[4] = 1;
    assert!(!matrix.validate());

    let mut matrix = column_sample();
    matrix.indices[3] = 4;
    matrix.indices[4] = 1;
    assert!(!matrix.validate());

    let mut matrix = column_sample();
    matrix.indices[2] = 5;
    assert!(!matrix.validate());

    let mut matrix = column_sample();
    matrix.rows = 4;
    assert!(!matrix.validate());
}

#[test]
fn retain_by_value() {
    let mut matrix = column_sample();
    matrix.retain(|_, _, &value| value % 2 == 1);
    assert_eq!(
        matrix,
        Compressed {
            rows: 5,
            columns: 7,
            nonzeros: 3,
            format: Format::Column,
            values: vec![1, 3, 5],
            indices: vec![1, 3, 4],
            offsets: vec![0, 0, 0, 1, 1, 1, 2, 3],
        }
    );
}

#[test]
fn retain_by_position() {
    let mut matrix = column_sample();
    matrix.retain(|row, column, _| row + column >= 8);
    assert_eq!(triples(&matrix), vec![(3, 5, 3), (4, 6, 5)]);
    assert_eq!(matrix.offsets, vec![0, 0, 0, 0, 0, 0, 1, 2]);

    let mut matrix = row_sample();
    matrix.retain(|row, column, _| row == 2 && column == 2 || row == 0);
    assert_eq!(triples(&matrix), vec![(0, 0, 10), (0, 3, 20), (2, 2, 40)]);
    assert_eq!(matrix.offsets, vec![0, 2, 2, 3]);
}

#[test]
fn retain_all_and_none() {
    let mut matrix = column_sample();
    matrix.retain(|_, _, _| true);
    assert_eq!(matrix, column_sample());

    matrix.retain(|_, _, _| false);
    assert_eq!(matrix.nonzeros, 0);
    assert!(matrix.values.is_empty());
    assert!(matrix.indices.is_empty());
    assert_eq!(matrix.offsets, vec![0; 8]);
}

#[test]
fn retain_sees_every_element_once() {
    let mut matrix = column_sample();
    let mut seen = vec![];
    matrix.retain(|row, column, &value| {
        seen.push((row, column, value));
        value != 2
    });
    assert_eq!(seen, vec![(1, 2, 1), (0, 3, 2), (3, 5, 3), (1, 6, 4), (4, 6, 5)]);
    assert_eq!(matrix.nonzeros, 4);
}

#[test]
fn resize_smaller_is_retain_and_truncation() {
    for (rows, columns) in [(5, 6), (3, 7), (2, 4), (4, 3), (1, 1), (0, 0), (5, 0), (0, 7)] {
        let mut resized = column_sample();
        resized.resize((rows, columns));

        let mut retained = column_sample();
        retained.retain(|row, column, _| row < rows && column < columns);
        retained.offsets.truncate(columns + 1);
        retained.rows = rows;
        retained.columns = columns;

        assert_eq!(resized, retained);
        assert!(resized.validate());
    }

    let mut resized = row_sample();
    resized.resize((2, 3));
    let mut retained = row_sample();
    retained.retain(|row, column, _| row < 2 && column < 3);
    retained.offsets.truncate(2 + 1);
    retained.rows = 2;
    retained.columns = 3;
    assert_eq!(resized, retained);
    assert_eq!(triples(&resized), vec![(0, 0, 10)]);
}

#[test]
fn resize_larger_removes_nothing() {
    let mut matrix = column_sample();
    matrix.resize((8, 9));
    assert_eq!(matrix.nonzeros, 5);
    assert_eq!(matrix.values, vec![1, 2, 3, 4, 5]);
    assert_eq!(matrix.indices, vec![1, 0, 3, 1, 4]);
    assert_eq!(matrix.offsets, vec![0, 0, 0, 1, 2, 2, 3, 5, 5, 5]);

    let mut matrix = row_sample();
    matrix.resize((5, 4));
    assert_eq!(matrix.values, vec![10, 20, 30, 40]);
    assert_eq!(matrix.indices, vec![0, 3, 1, 2]);
    assert_eq!(matrix.offsets, vec![0, 2, 2, 4, 4, 4]);
    assert_eq!((matrix.rows, matrix.columns), (5, 4));
}

#[test]
fn resize_one_way_smaller_and_one_way_larger() {
    let mut matrix = column_sample();
    matrix.resize((2, 9));
    assert_eq!(
        matrix,
        Compressed {
            rows: 2,
            columns: 9,
            nonzeros: 3,
            format: Format::Column,
            values: vec![1, 2, 4],
            indices: vec![1, 0, 1],
            offsets: vec![0, 0, 0, 1, 2, 2, 2, 3, 3, 3],
        }
    );
}

#[test]
fn transpose_twice_is_the_matrix() {
    let matrix = column_sample();
    assert_eq!(matrix.transpose().transpose(), matrix);

    let matrix = row_sample();
    assert_eq!(matrix.transpose().transpose(), matrix);

    let empty: Compressed<i64> = Compressed::new((2, 5), Format::Row);
    assert_eq!(empty.transpose().transpose(), empty);
}

#[test]
fn transpose_in_row_format() {
    let matrix = row_sample().transpose();
    assert_eq!(
        matrix,
        Compressed {
            rows: 4,
            columns: 3,
            nonzeros: 4,
            format: Format::Row,
            values: vec![10, 30, 40, 20],
            indices: vec![0, 2, 2, 0],
            offsets: vec![0, 1, 2, 3, 4],
        }
    );
}

#[test]
fn transpose_keeps_stored_zeros() {
    let mut matrix: Compressed<i64> = Compressed::new((2, 3), Format::Column);
    matrix.set((1, 2), 0);
    let other = matrix.transpose();
    assert_eq!(other.nonzeros, 1);
    assert_eq!(triples(&other), vec![(2, 1, 0)]);
}

#[test]
fn iter_walks_in_storage_order() {
    assert_eq!(
        triples(&column_sample()),
        vec![(1, 2, 1), (0, 3, 2), (3, 5, 3), (1, 6, 4), (4, 6, 5)]
    );
    assert_eq!(triples(&row_sample()), vec![(0, 0, 10), (0, 3, 20), (2, 1, 30), (2, 2, 40)]);
}

#[test]
fn iter_starts_afresh_and_ends_for_good() {
    let matrix = row_sample();
    let mut first = matrix.iter();
    let mut second = matrix.iter();
    assert_eq!(first.next(), Some((0, 0, &10)));
    assert_eq!(first.next(), Some((0, 3, &20)));
    assert_eq!(second.next(), Some((0, 0, &10)));
    assert_eq!(first.next(), Some((2, 1, &30)));
    assert_eq!(first.next(), Some((2, 2, &40)));
    assert_eq!(first.next(), None);
    assert_eq!(first.next(), None);
    assert_eq!(second.next(), Some((0, 3, &20)));
}

#[test]
fn iter_mut_in_row_format() {
    let mut matrix = row_sample();
    let mut iterator = matrix.iter_mut();
    while let Some((row, column, value)) = iterator.next() {
        *value += (10 * row + column) as i64;
    }
    assert_eq!(matrix.values, vec![10, 23, 51, 62]);
    assert_eq!(matrix.indices, vec![0, 3, 1, 2]);
    assert_eq!(matrix.offsets, vec![0, 2, 2, 4]);
}

#[test]
fn nonzeros_counts_values_not_positions() {
    let mut matrix: Compressed<i64> = Compressed::new((3, 3), Format::Row);
    assert_eq!(matrix.nonzeros(), 0);
    matrix.set((0, 0), 5);
    matrix.set((1, 1), 0);
    matrix.set((2, 2), -1);
    assert_eq!(matrix.nonzeros, 3);
    assert_eq!(matrix.nonzeros(), 2);
    matrix.set((0, 0), 0);
    assert_eq!(matrix.nonzeros, 3);
    assert_eq!(matrix.nonzeros(), 1);
}

#[test]
fn flip_gives_the_other_format() {
    assert_eq!(Format::Column.flip(), Format::Row);
    assert_eq!(Format::Row.flip(), Format::Column);
    assert_eq!(Format::Row.flip().flip(), Format::Row);
}
