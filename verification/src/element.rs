//! Elements of matrices and the arithmetic that the algebra needs of them.

use vstd::prelude::*;

verus! {

/// An element of a matrix.
///
/// An element type names one value as its zero and tells which values count
/// as zero. Every position of a matrix that stores nothing reads as
/// `zero()`, and the conversions from dense storage skip the values for which
/// `is_zero()` holds.
pub trait Element: Copy {
    /// The zero element.
    spec fn zero_spec() -> Self;

    /// Whether the value counts as zero.
    spec fn is_zero_spec(&self) -> bool;

    /// The zero element counts as zero.
    proof fn lemma_zero_is_zero()
        ensures
            Self::zero_spec().is_zero_spec(),
    ;

    /// Return the zero element.
    fn zero() -> (value: Self)
        ensures
            value == Self::zero_spec(),
    ;

    /// Tell whether the value counts as zero.
    fn is_zero(&self) -> (answer: bool)
        ensures
            answer == self.is_zero_spec(),
    ;
}

/// The number of values in the sequence that do not count as zero.
pub open spec fn count_nonzero<T: Element>(values: Seq<T>) -> nat
    decreases values.len(),
{
    if values.len() == 0 {
        0
    } else {
        count_nonzero(values.drop_last()) + if values.last().is_zero_spec() {
            0nat
        } else {
            1nat
        }
    }
}

/// An element with addition and multiplication.
///
/// Either operation may be partial: `can_add` and `can_mul` say on which
/// operands it is defined. For the machine integers these are the operands
/// whose exact sum or product fits the type.
pub trait Number: Element {
    /// Whether `self + other` is defined.
    spec fn can_add(self, other: Self) -> bool;

    /// The sum `self + other`, where it is defined.
    spec fn sum(self, other: Self) -> Self;

    /// Whether `self * other` is defined.
    spec fn can_mul(self, other: Self) -> bool;

    /// The product `self * other`, where it is defined.
    spec fn product(self, other: Self) -> Self;

    /// Add two numbers.
    fn add(self, other: Self) -> (result: Self)
        requires
            self.can_add(other),
        ensures
            result == self.sum(other),
    ;

    /// Multiply two numbers.
    fn mul(self, other: Self) -> (result: Self)
        requires
            self.can_mul(other),
        ensures
            result == self.product(other),
    ;
}

impl Element for u8 {
    open spec fn zero_spec() -> Self {
        0
    }

    open spec fn is_zero_spec(&self) -> bool {
        *self == 0
    }

    proof fn lemma_zero_is_zero() {
    }

    #[inline(always)]
    fn zero() -> (value: Self) {
        0
    }

    #[inline(always)]
    fn is_zero(&self) -> (answer: bool) {
        *self == 0
    }
}

impl Number for u8 {
    open spec fn can_add(self, other: Self) -> bool {
        u8::MIN <= self + other <= u8::MAX
    }

    open spec fn sum(self, other: Self) -> Self {
        (self + other) as u8
    }

    open spec fn can_mul(self, other: Self) -> bool {
        u8::MIN <= self * other <= u8::MAX
    }

    open spec fn product(self, other: Self) -> Self {
        (self * other) as u8
    }

    #[inline(always)]
    fn add(self, other: Self) -> (result: Self) {
        self + other
    }

    #[inline(always)]
    fn mul(self, other: Self) -> (result: Self) {
        self * other
    }
}

impl Element for u16 {
    open spec fn zero_spec() -> Self {
        0
    }

    open spec fn is_zero_spec(&self) -> bool {
        *self == 0
    }

    proof fn lemma_zero_is_zero() {
    }

    #[inline(always)]
    fn zero() -> (value: Self) {
        0
    }

    #[inline(always)]
    fn is_zero(&self) -> (answer: bool) {
        *self == 0
    }
}

impl Number for u16 {
    open spec fn can_add(self, other: Self) -> bool {
        u16::MIN <= self + other <= u16::MAX
    }

    open spec fn sum(self, other: Self) -> Self {
        (self + other) as u16
    }

    open spec fn can_mul(self, other: Self) -> bool {
        u16::MIN <= self * other <= u16::MAX
    }

    open spec fn product(self, other: Self) -> Self {
        (self * other) as u16
    }

    #[inline(always)]
    fn add(self, other: Self) -> (result: Self) {
        self + other
    }

    #[inline(always)]
    fn mul(self, other: Self) -> (result: Self) {
        self * other
    }
}

impl Element for u32 {
    open spec fn zero_spec() -> Self {
        0
    }

    open spec fn is_zero_spec(&self) -> bool {
        *self == 0
    }

    proof fn lemma_zero_is_zero() {
    }

    #[inline(always)]
    fn zero() -> (value: Self) {
        0
    }

    #[inline(always)]
    fn is_zero(&self) -> (answer: bool) {
        *self == 0
    }
}

impl Number for u32 {
    open spec fn can_add(self, other: Self) -> bool {
        u32::MIN <= self + other <= u32::MAX
    }

    open spec fn sum(self, other: Self) -> Self {
        (self + other) as u32
    }

    open spec fn can_mul(self, other: Self) -> bool {
        u32::MIN <= self * other <= u32::MAX
    }

    open spec fn product(self, other: Self) -> Self {
        (self * other) as u32
    }

    #[inline(always)]
    fn add(self, other: Self) -> (result: Self) {
        self + other
    }

    #[inline(always)]
    fn mul(self, other: Self) -> (result: Self) {
        self * other
    }
}

impl Element for u64 {
    open spec fn zero_spec() -> Self {
        0
    }

    open spec fn is_zero_spec(&self) -> bool {
        *self == 0
    }

    proof fn lemma_zero_is_zero() {
    }

    #[inline(always)]
    fn zero() -> (value: Self) {
        0
    }

    #[inline(always)]
    fn is_zero(&self) -> (answer: bool) {
        *self == 0
    }
}

impl Number for u64 {
    open spec fn can_add(self, other: Self) -> bool {
        u64::MIN <= self + other <= u64::MAX
    }

    open spec fn sum(self, other: Self) -> Self {
        (self + other) as u64
    }

    open spec fn can_mul(self, other: Self) -> bool {
        u64::MIN <= self * other <= u64::MAX
    }

    open spec fn product(self, other: Self) -> Self {
        (self * other) as u64
    }

    #[inline(always)]
    fn add(self, other: Self) -> (result: Self) {
        self + other
    }

    #[inline(always)]
    fn mul(self, other: Self) -> (result: Self) {
        self * other
    }
}

impl Element for i8 {
    open spec fn zero_spec() -> Self {
        0
    }

    open spec fn is_zero_spec(&self) -> bool {
        *self == 0
    }

    proof fn lemma_zero_is_zero() {
    }

    #[inline(always)]
    fn zero() -> (value: Self) {
        0
    }

    #[inline(always)]
    fn is_zero(&self) -> (answer: bool) {
        *self == 0
    }
}

impl Number for i8 {
    open spec fn can_add(self, other: Self) -> bool {
        i8::MIN <= self + other <= i8::MAX
    }

    open spec fn sum(self, other: Self) -> Self {
        (self + other) as i8
    }

    open spec fn can_mul(self, other: Self) -> bool {
        i8::MIN <= self * other <= i8::MAX
    }

    open spec fn product(self, other: Self) -> Self {
        (self * other) as i8
    }

    #[inline(always)]
    fn add(self, other: Self) -> (result: Self) {
        self + other
    }

    #[inline(always)]
    fn mul(self, other: Self) -> (result: Self) {
        self * other
    }
}

impl Element for i16 {
    open spec fn zero_spec() -> Self {
        0
    }

    open spec fn is_zero_spec(&self) -> bool {
        *self == 0
    }

    proof fn lemma_zero_is_zero() {
    }

    #[inline(always)]
    fn zero() -> (value: Self) {
        0
    }

    #[inline(always)]
    fn is_zero(&self) -> (answer: bool) {
        *self == 0
    }
}

impl Number for i16 {
    open spec fn can_add(self, other: Self) -> bool {
        i16::MIN <= self + other <= i16::MAX
    }

    open spec fn sum(self, other: Self) -> Self {
        (self + other) as i16
    }

    open spec fn can_mul(self, other: Self) -> bool {
        i16::MIN <= self * other <= i16::MAX
    }

    open spec fn product(self, other: Self) -> Self {
        (self * other) as i16
    }

    #[inline(always)]
    fn add(self, other: Self) -> (result: Self) {
        self + other
    }

    #[inline(always)]
    fn mul(self, other: Self) -> (result: Self) {
        self * other
    }
}

impl Element for i32 {
    open spec fn zero_spec() -> Self {
        0
    }

    open spec fn is_zero_spec(&self) -> bool {
        *self == 0
    }

    proof fn lemma_zero_is_zero() {
    }

    #[inline(always)]
    fn zero() -> (value: Self) {
        0
    }

    #[inline(always)]
    fn is_zero(&self) -> (answer: bool) {
        *self == 0
    }
}

impl Number for i32 {
    open spec fn can_add(self, other: Self) -> bool {
        i32::MIN <= self + other <= i32::MAX
    }

    open spec fn sum(self, other: Self) -> Self {
        (self + other) as i32
    }

    open spec fn can_mul(self, other: Self) -> bool {
        i32::MIN <= self * other <= i32::MAX
    }

    open spec fn product(self, other: Self) -> Self {
        (self * other) as i32
    }

    #[inline(always)]
    fn add(self, other: Self) -> (result: Self) {
        self + other
    }

    #[inline(always)]
    fn mul(self, other: Self) -> (result: Self) {
        self * other
    }
}

impl Element for i64 {
    open spec fn zero_spec() -> Self {
        0
    }

    open spec fn is_zero_spec(&self) -> bool {
        *self == 0
    }

    proof fn lemma_zero_is_zero() {
    }

    #[inline(always)]
    fn zero() -> (value: Self) {
        0
    }

    #[inline(always)]
    fn is_zero(&self) -> (answer: bool) {
        *self == 0
    }
}

impl Number for i64 {
    open spec fn can_add(self, other: Self) -> bool {
        i64::MIN <= self + other <= i64::MAX
    }

    open spec fn sum(self, other: Self) -> Self {
        (self + other) as i64
    }

    open spec fn can_mul(self, other: Self) -> bool {
        i64::MIN <= self * other <= i64::MAX
    }

    open spec fn product(self, other: Self) -> Self {
        (self * other) as i64
    }

    #[inline(always)]
    fn add(self, other: Self) -> (result: Self) {
        self + other
    }

    #[inline(always)]
    fn mul(self, other: Self) -> (result: Self) {
        self * other
    }
}

impl Element for isize {
    open spec fn zero_spec() -> Self {
        0
    }

    open spec fn is_zero_spec(&self) -> bool {
        *self == 0
    }

    proof fn lemma_zero_is_zero() {
    }

    #[inline(always)]
    fn zero() -> (value: Self) {
        0
    }

    #[inline(always)]
    fn is_zero(&self) -> (answer: bool) {
        *self == 0
    }
}

impl Number for isize {
    open spec fn can_add(self, other: Self) -> bool {
        isize::MIN <= self + other <= isize::MAX
    }

    open spec fn sum(self, other: Self) -> Self {
        (self + other) as isize
    }

    open spec fn can_mul(self, other: Self) -> bool {
        isize::MIN <= self * other <= isize::MAX
    }

    open spec fn product(self, other: Self) -> Self {
        (self * other) as isize
    }

    #[inline(always)]
    fn add(self, other: Self) -> (result: Self) {
        self + other
    }

    #[inline(always)]
    fn mul(self, other: Self) -> (result: Self) {
        self * other
    }
}

impl Element for usize {
    open spec fn zero_spec() -> Self {
        0
    }

    open spec fn is_zero_spec(&self) -> bool {
        *self == 0
    }

    proof fn lemma_zero_is_zero() {
    }

    #[inline(always)]
    fn zero() -> (value: Self) {
        0
    }

    #[inline(always)]
    fn is_zero(&self) -> (answer: bool) {
        *self == 0
    }
}

impl Number for usize {
    open spec fn can_add(self, other: Self) -> bool {
        usize::MIN <= self + other <= usize::MAX
    }

    open spec fn sum(self, other: Self) -> Self {
        (self + other) as usize
    }

    open spec fn can_mul(self, other: Self) -> bool {
        usize::MIN <= self * other <= usize::MAX
    }

    open spec fn product(self, other: Self) -> Self {
        (self * other) as usize
    }

    #[inline(always)]
    fn add(self, other: Self) -> (result: Self) {
        self + other
    }

    #[inline(always)]
    fn mul(self, other: Self) -> (result: Self) {
        self * other
    }
}

} // verus!
