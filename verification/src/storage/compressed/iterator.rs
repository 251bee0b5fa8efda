//! Iterators over the stored elements of a compressed matrix.

use vstd::prelude::*;
use crate::element::Element;
use crate::storage::compressed::{Compressed, Format};

verus! {

/// A sparse iterator.
///
/// It walks the stored elements in storage order: by major line, and by
/// index within each line.
pub struct Iterator<'l, T: Element> {
    matrix: &'l Compressed<T>,
    taken: usize,
    major: usize,
}

/// A sparse iterator allowing mutation.
///
/// It walks the stored elements in storage order and lends out each value
/// for writing. The fields are public so that contracts can speak of the
/// matrix behind the borrow; `is_valid` says how they fit together.
pub struct IteratorMut<'l, T: Element> {
    /// The matrix that is walked.
    pub matrix: &'l mut Compressed<T>,
    /// The number of elements lent out so far, which is the storage
    /// position of the next one.
    pub taken: usize,
    /// A major line at or before the one that holds the next element.
    pub major: usize,
}

impl<T: Element> Compressed<T> {
    /// Return a sparse iterator.
    #[inline]
    pub fn iter<'l>(&'l self) -> (iterator: Iterator<'l, T>)
        requires
            self.is_valid(),
        ensures
            iterator.matrix() == *self,
            iterator.taken() == 0,
    {
        Iterator { matrix: self, taken: 0, major: 0 }
    }

    /// Return a sparse iterator allowing mutation.
    #[inline]
    pub fn iter_mut<'l>(&'l mut self) -> (iterator: IteratorMut<'l, T>)
        requires
            old(self).is_valid(),
        ensures
            iterator.is_valid(),
            *iterator.matrix == *old(self),
            iterator.taken == 0,
            *final(self) == *final(iterator.matrix),
    {
        IteratorMut { matrix: self, taken: 0, major: 0 }
    }
}

impl<'l, T: Element> Iterator<'l, T> {
    #[verifier::type_invariant]
    closed spec fn is_valid(&self) -> bool {
        &&& self.matrix.is_valid()
        &&& self.taken <= self.matrix.nonzeros
        &&& self.major <= self.matrix.major_dimension()
        &&& self.matrix.offsets@[self.major as int] <= self.taken
    }

    /// The matrix that is walked.
    pub closed spec fn matrix(&self) -> Compressed<T> {
        *self.matrix
    }

    /// The number of elements handed out so far, which is the storage
    /// position of the next one.
    pub closed spec fn taken(&self) -> int {
        self.taken as int
    }

    /// Hand out the next stored element with its row and column, or nothing
    /// when all have been handed out.
    pub fn next(&mut self) -> (item: Option<(usize, usize, &'l T)>)
        ensures
            final(self).matrix() == old(self).matrix(),
            0 <= old(self).taken() <= old(self).matrix().nonzeros,
            old(self).matrix().is_valid(),
            match item {
                Some((row, column, value)) => {
                    &&& old(self).taken() < old(self).matrix().nonzeros
                    &&& final(self).taken() == old(self).taken() + 1
                    &&& old(self).matrix().holds_at(old(self).taken(), row as int, column as int)
                    &&& *value == old(self).matrix().values@[old(self).taken()]
                },
                None => {
                    &&& old(self).taken() == old(self).matrix().nonzeros
                    &&& final(self).taken() == old(self).taken()
                },
            },
    {
        proof {
            use_type_invariant(&*self);
        }
        let matrix = self.matrix;
        let k = self.taken;
        if k == matrix.nonzeros {
            return None;
        }
        let mut major = self.major;
        while matrix.offsets[major + 1] <= k
            invariant
                matrix.is_valid(),
                k < matrix.nonzeros,
                major <= matrix.major_dimension(),
                matrix.offsets@[major as int] <= k,
            decreases matrix.major_dimension() - major,
        {
            major += 1;
        }
        self.taken = k + 1;
        self.major = major;
        let item = &matrix.values[k];
        Some(
            match matrix.format {
                Format::Column => (matrix.indices[k], major, item),
                Format::Row => (major, matrix.indices[k], item),
            },
        )
    }
}

impl<'l, T: Element> IteratorMut<'l, T> {
    /// Whether the cursor fits the matrix: the matrix is valid, at most all
    /// of its elements were lent out, and the slice of `major` starts at or
    /// before the next element.
    pub open spec fn is_valid(&self) -> bool {
        &&& self.matrix.is_valid()
        &&& self.taken <= self.matrix.nonzeros
        &&& self.major <= self.matrix.major_dimension()
        &&& self.matrix.offsets@[self.major as int] <= self.taken
    }

    /// Lend out the next stored element with its row and column, or nothing
    /// when all have been lent out.
    pub fn next(&mut self) -> (item: Option<(usize, usize, &mut T)>)
        requires
            old(self).is_valid(),
        ensures
            final(self).is_valid(),
            *final(final(self).matrix) == *final(old(self).matrix),
            match item {
                Some((row, column, value)) => {
                    &&& old(self).taken < old(self).matrix.nonzeros
                    &&& final(self).taken == old(self).taken + 1
                    &&& old(self).matrix.holds_at(old(self).taken as int, row as int, column as int)
                    &&& *value == old(self).matrix.values@[old(self).taken as int]
                    &&& old(self).matrix.overwritten(
                        final(self).matrix,
                        old(self).taken as int,
                        *final(value),
                    )
                },
                None => {
                    &&& old(self).taken == old(self).matrix.nonzeros
                    &&& final(self).taken == old(self).taken
                    &&& *final(self).matrix == *old(self).matrix
                },
            },
    {
        let k = self.taken;
        if k == self.matrix.nonzeros {
            return None;
        }
        let mut major = self.major;
        while self.matrix.offsets[major + 1] <= k
            invariant
                self.matrix.is_valid(),
                k < self.matrix.nonzeros,
                major <= self.matrix.major_dimension(),
                self.matrix.offsets@[major as int] <= k,
            decreases self.matrix.major_dimension() - major,
        {
            major += 1;
        }
        self.taken = k + 1;
        self.major = major;
        let (row, column) = match self.matrix.format {
            Format::Column => (self.matrix.indices[k], major),
            Format::Row => (major, self.matrix.indices[k]),
        };
        Some((row, column, &mut self.matrix.values[k]))
    }
}

} // verus!
