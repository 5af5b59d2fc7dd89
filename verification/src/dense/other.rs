//! Operators that are put together from others.

use vstd::prelude::*;
use crate::dense::addition::ArrayAddition;
use crate::dense::scalar_mult::ArrayScalarMult;
use crate::traits::accessors::UnsafeRandomAccessByValue;
use crate::traits::properties::Shape;
use crate::types::Scalar;

verus! {

/// The difference of two arrays of one shape: `lhs` plus minus one times
/// `rhs`, element by element on access.
pub fn difference<
    Item: Scalar,
    ArrayImpl1: UnsafeRandomAccessByValue<NDIM, Item = Item> + Shape<NDIM>,
    ArrayImpl2: UnsafeRandomAccessByValue<NDIM, Item = Item> + Shape<NDIM>,
    const NDIM: usize,
>(lhs: ArrayImpl1, rhs: ArrayImpl2) -> (r: ArrayAddition<
    Item,
    ArrayImpl1,
    ArrayScalarMult<Item, ArrayImpl2, NDIM>,
    NDIM,
>)
    requires
        lhs.spec_shape() == rhs.spec_shape(),
    ensures
        r.spec_operator1() == lhs,
        r.spec_operator2().spec_scalar() == Item::one_value().negation(),
        r.spec_operator2().spec_operator() == rhs,
        r.spec_shape() == lhs.spec_shape(),
        forall|m: Seq<usize>|
            #[trigger] r.value_at(m) == lhs.value_at(m).sum(
                Item::one_value().negation().product(rhs.value_at(m)),
            ),
{
    let minus_one = Item::one().negate();
    let minus_rhs = ArrayScalarMult::new(minus_one, rhs);
    ArrayAddition::new(lhs, minus_rhs)
}

} // verus!
