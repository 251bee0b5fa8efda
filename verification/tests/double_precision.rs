use matrix::storage::compressed::Format;
use matrix::{
    Compressed, Conventional, Diagonal, Element, Matrix, MultiplyInto, MultiplySelf, Number,
};

/// A double-precision element. The ghost items of the traits are ordinary
/// functions here; nothing calls them.
#[derive(Clone, Copy, Debug, PartialEq)]
struct Real(f64);

impl Element for Real {
    fn zero_spec() -> Self {
        Real(0.0)
    }

    fn is_zero_spec(&self) -> bool {
        self.0 == 0.0
    }

    fn lemma_zero_is_zero() {}

    fn zero() -> Self {
        Real(0.0)
    }

    fn is_zero(&self) -> bool {
        self.0 == 0.0
    }
}

impl Number for Real {
    fn can_add(self, _other: Self) -> bool {
        true
    }

    fn sum(self, other: Self) -> Self {
        Real(self.0 + other.0)
    }

    fn can_mul(self, _other: Self) -> bool {
        true
    }

    fn product(self, other: Self) -> Self {
        Real(self.0 * other.0)
    }

    fn add(self, other: Self) -> Self {
        Real(self.0 + other.0)
    }

    fn mul(self, other: Self) -> Self {
        Real(self.0 * other.0)
    }
}

fn reals(values: &[f64]) -> Vec<Real> {
    values.iter().map(|&value| Real(value)).collect()
}

fn compressed(
    rows: usize,
    columns: usize,
    nonzeros: usize,
    format: Format,
    values: &[f64],
    indices: Vec<usize>,
    offsets: Vec<usize>,
) -> Compressed<Real> {
    Compressed { rows, columns, nonzeros, format, values: reals(values), indices, offsets }
}

fn five_by_three() -> Conventional<Real> {
    Conventional::from_vec(
        (5, 3),
        reals(&[
            0.0, 1.0, 0.0, 0.0, 0.0,
            0.0, 0.0, 0.0, 2.0, 3.0,
            0.0, 0.0, 0.0, 0.0, 4.0,
        ]),
    )
}

fn five_by_seven() -> Compressed<Real> {
    compressed(
        5,
        7,
        5,
        Format::Column,
        &[1.0, 2.0, 3.0, 4.0, 5.0],
        vec![1, 0, 3, 1, 4],
        vec![0, 0, 0, 1, 2, 2, 3, 5],
    )
}

#[test]
fn multiply_self_diagonal() {
    let mut matrix =
        compressed(3, 2, 3, Format::Column, &[1.0, 2.0, 3.0], vec![1, 0, 2], vec![0, 1, 3]);

    let right = Diagonal::from_vec((2, 4), reals(&[4.0, 5.0]));

    matrix.multiply_self(&right);

    assert_eq!(
        matrix,
        compressed(
            3,
            4,
            3,
            Format::Column,
            &[4.0, 10.0, 15.0],
            vec![1, 0, 2],
            vec![0, 1, 3, 3, 3]
        )
    );
}

#[test]
fn multiply_into_conventional() {
    let matrix = Compressed::from_conventional(&Conventional::from_vec(
        (4, 3),
        reals(&[
            1.0, 2.0, 3.0, 4.0,
            5.0, 6.0, 6.0, 5.0,
            4.0, 3.0, 2.0, 1.0,
        ]),
    ));

    let right = Conventional::from_vec(
        (3, 2),
        reals(&[
            1.0, 2.0, 3.0,
            4.0, 5.0, 6.0,
        ]),
    );

    let mut result = Conventional::from_vec(
        (4, 2),
        reals(&[
            1.0, 1.0, 1.0, 1.0,
            1.0, 1.0, 1.0, 1.0,
        ]),
    );

    matrix.multiply_into(&right, &mut result);

    assert_eq!(
        &result.values,
        &reals(&[
            24.0, 24.0, 22.0, 18.0,
            54.0, 57.0, 55.0, 48.0,
        ])
    );
}

#[test]
fn mod_nonzeros() {
    let matrix = Conventional::from_vec(2, reals(&[1.0, 2.0, 3.0, 0.0]));
    assert_eq!(matrix.nonzeros(), 3);
}

#[test]
fn mod_transpose() {
    let matrix = Conventional::from_vec((3, 2), reals(&[1.0, 2.0, 3.0, 4.0, 5.0, 6.0]));
    let matrix = matrix.transpose();
    assert_eq!(
        matrix,
        Conventional::from_vec((2, 3), reals(&[1.0, 4.0, 2.0, 5.0, 3.0, 6.0]))
    );
}

#[test]
fn from_conventional() {
    let matrix = five_by_three();

    let matrix = Compressed::from_conventional(&matrix);

    assert_eq!(
        matrix,
        compressed(
            5,
            3,
            4,
            Format::Column,
            &[1.0, 2.0, 3.0, 4.0],
            vec![1, 3, 4, 4],
            vec![0, 1, 3, 4]
        )
    );
}

#[test]
fn from_diagonal_tall() {
    let matrix = Compressed::from_diagonal(Diagonal::from_vec((5, 3), reals(&[1.0, 2.0, 0.0])));

    assert_eq!(
        matrix,
        compressed(
            5,
            3,
            3,
            Format::Column,
            &[1.0, 2.0, 0.0],
            vec![0, 1, 2],
            vec![0, 1, 2, 3]
        )
    );
}

#[test]
fn from_diagonal_wide() {
    let matrix = Compressed::from_diagonal(Diagonal::from_vec((3, 5), reals(&[1.0, 0.0, 3.0])));

    assert_eq!(
        matrix,
        compressed(
            3,
            5,
            3,
            Format::Column,
            &[1.0, 0.0, 3.0],
            vec![0, 1, 2],
            vec![0, 1, 2, 3, 3, 3]
        )
    );
}

#[test]
fn into_conventional() {
    let matrix =
        compressed(5, 3, 3, Format::Column, &[1.0, 2.0, 3.0], vec![0, 1, 2], vec![0, 1, 2, 3]);

    let matrix = Conventional::from_compressed(&matrix);

    assert_eq!(
        &*matrix,
        &reals(&[
            1.0, 0.0, 0.0, 0.0, 0.0,
            0.0, 2.0, 0.0, 0.0, 0.0,
            0.0, 0.0, 3.0, 0.0, 0.0,
        ])[..]
    );
}

#[test]
fn get() {
    let conventional = five_by_three();

    let matrix = Compressed::from_conventional(&conventional);
    assert_eq!(matrix.nonzeros, 4);

    for i in 0..5 {
        for j in 0..3 {
            assert_eq!(conventional[(i, j)], matrix.get((i, j)));
        }
    }
}

#[test]
fn set() {
    let mut conventional = five_by_three();

    let mut matrix = Compressed::from_conventional(&conventional);
    assert_eq!(matrix.nonzeros, 4);

    *conventional.index_mut((0, 0)) = Real(42.0);
    *conventional.index_mut((3, 1)) = Real(69.0);

    matrix.set((0, 0), Real(42.0));
    matrix.set((3, 1), Real(69.0));
    matrix.set((4, 0), Real(0.0));

    assert_eq!(matrix.nonzeros, 4 + 1 + (1 - 1) + 1);
    assert_eq!(conventional, Conventional::from_compressed(&matrix));

    for i in 0..5 {
        for j in 0..3 {
            *conventional.index_mut((i, j)) = Real((j * 5 + i) as f64);
            matrix.set((i, j), Real((j * 5 + i) as f64));
        }
    }

    assert_eq!(matrix.nonzeros, 5 * 3);
    assert_eq!(conventional, Conventional::from_compressed(&matrix));
}

#[test]
fn nonzeros() {
    let matrix = compressed(
        5,
        7,
        5,
        Format::Column,
        &[1.0, 0.0, 3.0, 0.0, 5.0],
        vec![1, 0, 3, 1, 4],
        vec![0, 0, 0, 1, 2, 2, 3, 5],
    );

    assert_eq!(matrix.nonzeros, 5);
    assert_eq!(matrix.nonzeros(), 3);
}

#[test]
fn transpose() {
    let matrix = five_by_seven();

    let matrix = matrix.transpose();

    assert_eq!(
        matrix,
        compressed(
            7,
            5,
            5,
            Format::Column,
            &[2.0, 1.0, 4.0, 3.0, 5.0],
            vec![3, 2, 6, 5, 6],
            vec![0, 1, 3, 3, 4, 5]
        )
    );
}

#[test]
fn iter() {
    let matrix = five_by_seven();

    let mut result = vec![];
    let mut iterator = matrix.iter();
    while let Some((i, _, _)) = iterator.next() {
        result.push(i);
    }
    assert_eq!(&result, &vec![1, 0, 3, 1, 4]);

    let mut result = vec![];
    let mut iterator = matrix.iter();
    while let Some((_, j, _)) = iterator.next() {
        result.push(j);
    }
    assert_eq!(&result, &vec![2, 3, 5, 6, 6]);

    let mut result = vec![];
    let mut iterator = matrix.iter();
    while let Some((_, _, &value)) = iterator.next() {
        result.push(value);
    }
    assert_eq!(&result, &reals(&[1.0, 2.0, 3.0, 4.0, 5.0]));
}

#[test]
fn iter_mut() {
    let mut matrix = five_by_seven();

    let mut iterator = matrix.iter_mut();
    while let Some((i, _, value)) = iterator.next() {
        *value = if i % 2 == 0 { Real(42.0) } else { Real(69.0) };
    }

    assert_eq!(&matrix.values, &reals(&[69.0, 42.0, 69.0, 69.0, 42.0]));
}

#[test]
fn resize_fewer_columns() {
    let mut matrix = five_by_seven();

    matrix.resize((5, 5));
    assert_eq!(
        matrix,
        compressed(5, 5, 2, Format::Column, &[1.0, 2.0], vec![1, 0], vec![0, 0, 0, 1, 2, 2])
    );

    matrix.resize((5, 3));
    assert_eq!(matrix, compressed(5, 3, 1, Format::Column, &[1.0], vec![1], vec![0, 0, 0, 1]));

    matrix.resize((5, 1));
    assert_eq!(matrix, compressed(5, 1, 0, Format::Column, &[], vec![], vec![0, 0]));
}

#[test]
fn resize_fewer_rows() {
    let mut matrix = five_by_seven();

    matrix.resize((3, 7));
    assert_eq!(
        matrix,
        compressed(
            3,
            7,
            3,
            Format::Column,
            &[1.0, 2.0, 4.0],
            vec![1, 0, 1],
            vec![0, 0, 0, 1, 2, 2, 2, 3]
        )
    );

    matrix.resize((1, 7));
    assert_eq!(
        matrix,
        compressed(1, 7, 1, Format::Column, &[2.0], vec![0], vec![0, 0, 0, 0, 1, 1, 1, 1])
    );
}

#[test]
fn resize_more_columns() {
    let mut matrix = compressed(
        5,
        7,
        4,
        Format::Column,
        &[1.0, 2.0, 3.0, 4.0],
        vec![1, 1, 3, 4],
        vec![0, 0, 0, 1, 2, 2, 3, 4],
    );

    matrix.resize((5, 9));
    assert_eq!(
        matrix,
        compressed(
            5,
            9,
            4,
            Format::Column,
            &[1.0, 2.0, 3.0, 4.0],
            vec![1, 1, 3, 4],
            vec![0, 0, 0, 1, 2, 2, 3, 4, 4, 4]
        )
    );

    matrix.resize((5, 11));
    assert_eq!(
        matrix,
        compressed(
            5,
            11,
            4,
            Format::Column,
            &[1.0, 2.0, 3.0, 4.0],
            vec![1, 1, 3, 4],
            vec![0, 0, 0, 1, 2, 2, 3, 4, 4, 4, 4, 4]
        )
    );
}

#[test]
fn resize_more_rows() {
    let mut matrix = compressed(
        5,
        7,
        4,
        Format::Column,
        &[1.0, 2.0, 3.0, 4.0],
        vec![1, 1, 3, 4],
        vec![0, 0, 0, 1, 2, 2, 3, 4],
    );

    matrix.resize((7, 7));
    assert_eq!(
        matrix,
        compressed(
            7,
            7,
            4,
            Format::Column,
            &[1.0, 2.0, 3.0, 4.0],
            vec![1, 1, 3, 4],
            vec![0, 0, 0, 1, 2, 2, 3, 4]
        )
    );

    matrix.resize((9, 7));
    assert_eq!(
        matrix,
        compressed(
            9,
            7,
            4,
            Format::Column,
            &[1.0, 2.0, 3.0, 4.0],
            vec![1, 1, 3, 4],
            vec![0, 0, 0, 1, 2, 2, 3, 4]
        )
    );
}
