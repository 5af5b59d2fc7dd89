//! The product of a scalar and an array, evaluated element by element on
//! access.

use vstd::prelude::*;
use crate::traits::accessors::{ChunkedAccess, UnsafeRandomAccessByValue};
use crate::traits::properties::Shape;
use crate::types::{DataChunk, Scalar};

verus! {

/// An array whose elements are those of `operator`, each multiplied by
/// `scalar`. Nothing is computed until an element is asked for.
#[verifier::reject_recursive_types(Item)]
#[verifier::reject_recursive_types(ArrayImpl)]
pub struct ArrayScalarMult<
    Item: Scalar,
    ArrayImpl: UnsafeRandomAccessByValue<NDIM, Item = Item> + Shape<NDIM>,
    const NDIM: usize,
> {
    scalar: Item,
    operator: ArrayImpl,
}

impl<
    Item: Scalar,
    ArrayImpl: UnsafeRandomAccessByValue<NDIM, Item = Item> + Shape<NDIM>,
    const NDIM: usize,
> ArrayScalarMult<Item, ArrayImpl, NDIM> {
    /// The factor.
    pub closed spec fn spec_scalar(&self) -> Item {
        self.scalar
    }

    /// The array that is scaled.
    pub closed spec fn spec_operator(&self) -> ArrayImpl {
        self.operator
    }

    /// The product of `scalar` and `operator`.
    pub fn new(scalar: Item, operator: ArrayImpl) -> (r: Self)
        ensures
            r.spec_scalar() == scalar,
            r.spec_operator() == operator,
    {
        Self { scalar, operator }
    }
}

impl<
    Item: Scalar,
    ArrayImpl: UnsafeRandomAccessByValue<NDIM, Item = Item> + Shape<NDIM>,
    const NDIM: usize,
> UnsafeRandomAccessByValue<NDIM> for ArrayScalarMult<Item, ArrayImpl, NDIM> {
    type Item = Item;

    open spec fn value_at(&self, multi_index: Seq<usize>) -> Item {
        self.spec_scalar().product(self.spec_operator().value_at(multi_index))
    }

    #[inline]
    fn get_value_unchecked(&self, multi_index: [usize; NDIM]) -> (r: Item) {
        self.scalar.times(self.operator.get_value_unchecked(multi_index))
    }
}

impl<
    Item: Scalar,
    ArrayImpl: UnsafeRandomAccessByValue<NDIM, Item = Item> + Shape<NDIM>,
    const NDIM: usize,
> Shape<NDIM> for ArrayScalarMult<Item, ArrayImpl, NDIM> {
    open spec fn spec_shape(&self) -> [usize; NDIM] {
        self.spec_operator().spec_shape()
    }

    fn shape(&self) -> (s: [usize; NDIM]) {
        self.operator.shape()
    }
}

impl<
    Item: Scalar,
    ArrayImpl: UnsafeRandomAccessByValue<NDIM, Item = Item> + Shape<NDIM> + ChunkedAccess<
        N,
        Item = Item,
    >,
    const NDIM: usize,
    const N: usize,
> ChunkedAccess<N> for ArrayScalarMult<Item, ArrayImpl, NDIM> {
    type Item = Item;

    open spec fn element_count(&self) -> int {
        ChunkedAccess::<N>::element_count(&self.spec_operator())
    }

    open spec fn flat_at(&self, index: int) -> Item {
        ChunkedAccess::<N>::flat_at(&self.spec_operator(), index).product(self.spec_scalar())
    }

    open spec fn padding(&self) -> Item {
        ChunkedAccess::<N>::padding(&self.spec_operator()).product(self.spec_scalar())
    }

    #[inline]
    fn get_chunk(&self, chunk_index: usize) -> (r: Option<DataChunk<Item, N>>) {
        match ChunkedAccess::<N>::get_chunk(&self.operator, chunk_index) {
            Some(mut chunk) => {
                let ghost plain = chunk;
                let mut k: usize = 0;
                while k < N
                    invariant
                        0 <= k <= N,
                        chunk.start_index == plain.start_index,
                        chunk.valid_entries == plain.valid_entries,
                        forall|j: int|
                            0 <= j < k ==> chunk.data@[j] == plain.data@[j].product(self.scalar),
                        forall|j: int| k <= j < N ==> chunk.data@[j] == plain.data@[j],
                    decreases N - k,
                {
                    let item = chunk.data[k];
                    chunk.data[k] = item.times(self.scalar);
                    k += 1;
                }
                Some(chunk)
            },
            None => None,
        }
    }
}

} // verus!
