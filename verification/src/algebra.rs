//! Algebraic operations.

use vstd::prelude::*;

verus! {

/// The multiplication of a matrix by another that overwrites the receiver
/// with the product.
pub trait MultiplySelf<Right: ?Sized> {
    /// Whether the product is defined and the receiver can hold it.
    spec fn multiplies_with(&self, right: &Right) -> bool;

    /// Whether `product` is the product of `self` and `right`.
    spec fn is_product(&self, right: &Right, product: &Self) -> bool;

    /// Perform the multiplication.
    fn multiply_self(&mut self, right: &Right)
        requires
            old(self).multiplies_with(right),
        ensures
            old(self).is_product(right, final(self)),
    ;
}

/// The multiplication of a matrix by another that adds the product to a
/// third.
pub trait MultiplyInto<Right: ?Sized, Output: ?Sized> {
    /// Whether the product is defined and can be added to `result`.
    spec fn multiplies_into(&self, right: &Right, result: &Output) -> bool;

    /// Whether `sum` is `result` with the product of `self` and `right`
    /// added to it.
    spec fn is_sum_with_product(&self, right: &Right, result: &Output, sum: &Output) -> bool;

    /// Perform the multiplication.
    fn multiply_into(&self, right: &Right, result: &mut Output)
        requires
            self.multiplies_into(right, old(result)),
        ensures
            self.is_sum_with_product(right, old(result), final(result)),
    ;
}

} // verus!
