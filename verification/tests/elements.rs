use matrix::storage::compressed::Format;
use matrix::{Compressed, Conventional, Diagonal, Element, Number, Position, Size};

#[test]
fn zero_of_each_integer_type() {
    assert_eq!(<u8 as Element>::zero(), 0);
    assert_eq!(<u16 as Element>::zero(), 0);
    assert_eq!(<u32 as Element>::zero(), 0);
    assert_eq!(<u64 as Element>::zero(), 0);
    assert_eq!(<i8 as Element>::zero(), 0);
    assert_eq!(<i16 as Element>::zero(), 0);
    assert_eq!(<i32 as Element>::zero(), 0);
    assert_eq!(<i64 as Element>::zero(), 0);
    assert_eq!(<isize as Element>::zero(), 0);
    assert_eq!(<usize as Element>::zero(), 0);
}

#[test]
fn is_zero_of_integers() {
    assert!(Element::is_zero(&0u8));
    assert!(!Element::is_zero(&1u8));
    assert!(Element::is_zero(&0i64));
    assert!(!Element::is_zero(&-1i64));
    assert!(!Element::is_zero(&usize::MAX));
    assert!(Element::is_zero(&<i16 as Element>::zero()));
}

#[test]
fn sums_and_products_of_integers() {
    assert_eq!(Number::add(200u8, 55u8), 255);
    assert_eq!(Number::mul(15u8, 17u8), 255);
    assert_eq!(Number::add(-7i32, 4i32), -3);
    assert_eq!(Number::mul(-7i32, 4i32), -28);
    assert_eq!(Number::add(i64::MAX - 1, 1), i64::MAX);
    assert_eq!(Number::mul(i16::MIN, 1), i16::MIN);
    assert_eq!(Number::mul(0usize, usize::MAX), 0);
    assert_eq!(Number::add(3u64, Number::mul(4u64, 5u64)), 23);
}

#[test]
fn dimensions_of_pairs_and_numbers() {
    assert_eq!((3usize, 4usize).dimensions(), (3, 4));
    assert_eq!(5usize.dimensions(), (5, 5));
    assert_eq!(0usize.dimensions(), (0, 0));
}

#[test]
fn dimensions_of_matrices() {
    let compressed: Compressed<u8> = Compressed::new((3, 4), Format::Row);
    assert_eq!(compressed.dimensions(), (3, 4));
    let conventional: Conventional<u8> = Conventional::new((2, 5));
    assert_eq!(conventional.dimensions(), (2, 5));
    let diagonal = Diagonal::from_vec((6, 1), vec![9u8]);
    assert_eq!(diagonal.dimensions(), (6, 1));
    let same: Compressed<u8> = Compressed::new(compressed.dimensions(), Format::Column);
    assert_eq!((same.rows, same.columns), (3, 4));
}

#[test]
fn coordinates_of_pairs() {
    assert_eq!((3usize, 4usize).coordinates(), (3, 4));
    assert_eq!((0usize, 0usize).coordinates(), (0, 0));
}

#[test]
fn diagonal_holds_at_most_the_diagonal() {
    let matrix = Diagonal::from_vec((2, 3), vec![1i32, 2]);
    assert_eq!((matrix.rows, matrix.columns), (2, 3));
    assert_eq!(matrix.values, vec![1, 2]);
    assert!(matrix.validate());

    let short = Diagonal::from_vec((2, 3), vec![1i32]);
    assert!(short.validate());

    let long = Diagonal { rows: 2, columns: 3, values: vec![1i32, 2, 3] };
    assert!(!long.validate());
    let long = Diagonal { rows: 3, columns: 2, values: vec![1i32, 2, 3] };
    assert!(!long.validate());
}
