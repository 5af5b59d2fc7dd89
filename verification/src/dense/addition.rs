//! The sum of two arrays, evaluated element by element on access.

use vstd::prelude::*;
use crate::traits::accessors::UnsafeRandomAccessByValue;
use crate::traits::properties::Shape;
use crate::types::Scalar;

verus! {

/// An array whose elements are the sums of the elements of two arrays of
/// one shape. Nothing is computed until an element is asked for.
#[verifier::reject_recursive_types(Item)]
#[verifier::reject_recursive_types(ArrayImpl1)]
#[verifier::reject_recursive_types(ArrayImpl2)]
pub struct ArrayAddition<
    Item: Scalar,
    ArrayImpl1: UnsafeRandomAccessByValue<NDIM, Item = Item> + Shape<NDIM>,
    ArrayImpl2: UnsafeRandomAccessByValue<NDIM, Item = Item> + Shape<NDIM>,
    const NDIM: usize,
> {
    operator1: ArrayImpl1,
    operator2: ArrayImpl2,
}

impl<
    Item: Scalar,
    ArrayImpl1: UnsafeRandomAccessByValue<NDIM, Item = Item> + Shape<NDIM>,
    ArrayImpl2: UnsafeRandomAccessByValue<NDIM, Item = Item> + Shape<NDIM>,
    const NDIM: usize,
> ArrayAddition<Item, ArrayImpl1, ArrayImpl2, NDIM> {
    /// The two arrays have one shape.
    #[verifier::type_invariant]
    pub closed spec fn wf(&self) -> bool {
        self.operator1.spec_shape() == self.operator2.spec_shape()
    }

    /// The first summand.
    pub closed spec fn spec_operator1(&self) -> ArrayImpl1 {
        self.operator1
    }

    /// The second summand.
    pub closed spec fn spec_operator2(&self) -> ArrayImpl2 {
        self.operator2
    }

    /// The sum of `operator1` and `operator2`, which must have one shape.
    pub fn new(operator1: ArrayImpl1, operator2: ArrayImpl2) -> (r: Self)
        requires
            operator1.spec_shape() == operator2.spec_shape(),
        ensures
            r.wf(),
            r.spec_operator1() == operator1,
            r.spec_operator2() == operator2,
    {
        Self { operator1, operator2 }
    }
}

impl<
    Item: Scalar,
    ArrayImpl1: UnsafeRandomAccessByValue<NDIM, Item = Item> + Shape<NDIM>,
    ArrayImpl2: UnsafeRandomAccessByValue<NDIM, Item = Item> + Shape<NDIM>,
    const NDIM: usize,
> UnsafeRandomAccessByValue<NDIM> for ArrayAddition<Item, ArrayImpl1, ArrayImpl2, NDIM> {
    type Item = Item;

    open spec fn value_at(&self, multi_index: Seq<usize>) -> Item {
        self.spec_operator1().value_at(multi_index).sum(
            self.spec_operator2().value_at(multi_index),
        )
    }

    #[inline]
    fn get_value_unchecked(&self, multi_index: [usize; NDIM]) -> (r: Item) {
        proof {
            use_type_invariant(self);
        }
        self.operator1.get_value_unchecked(multi_index).plus(
            self.operator2.get_value_unchecked(multi_index),
        )
    }
}

impl<
    Item: Scalar,
    ArrayImpl1: UnsafeRandomAccessByValue<NDIM, Item = Item> + Shape<NDIM>,
    ArrayImpl2: UnsafeRandomAccessByValue<NDIM, Item = Item> + Shape<NDIM>,
    const NDIM: usize,
> Shape<NDIM> for ArrayAddition<Item, ArrayImpl1, ArrayImpl2, NDIM> {
    open spec fn spec_shape(&self) -> [usize; NDIM] {
        self.spec_operator1().spec_shape()
    }

    fn shape(&self) -> (s: [usize; NDIM]) {
        self.operator1.shape()
    }
}

} // verus!
