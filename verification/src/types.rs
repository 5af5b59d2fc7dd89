//! The numbers that matrices and vectors hold, and fixed-size runs of them.

use vstd::prelude::*;

verus! {

/// A number type with the ring operations that a matrix-vector product needs.
///
/// Every operation is a function of its operands alone; the spec functions
/// name the results so that contracts can speak of sums and products without
/// fixing how a particular number type rounds or wraps.
pub trait Scalar: Copy {
    /// The additive identity.
    spec fn zero_value() -> Self;

    /// The multiplicative identity.
    spec fn one_value() -> Self;

    /// What `plus` computes.
    spec fn sum(self, rhs: Self) -> Self;

    /// What `times` computes.
    spec fn product(self, rhs: Self) -> Self;

    /// What `negate` computes.
    spec fn negation(self) -> Self;

    /// Returns the additive identity.
    fn zero() -> (r: Self)
        ensures
            r == Self::zero_value(),
    ;

    /// Returns the multiplicative identity.
    fn one() -> (r: Self)
        ensures
            r == Self::one_value(),
    ;

    /// Adds two numbers.
    fn plus(self, rhs: Self) -> (r: Self)
        ensures
            r == self.sum(rhs),
    ;

    /// Multiplies two numbers.
    fn times(self, rhs: Self) -> (r: Self)
        ensures
            r == self.product(rhs),
    ;

    /// Returns the additive inverse.
    fn negate(self) -> (r: Self)
        ensures
            r == self.negation(),
    ;
}

/// `num::zero` at `i64`: the literal `0`.
#[verifier::external_body]
fn num_zero_i64() -> (r: i64)
    ensures
        r == 0,
{
    num::zero::<i64>()
}

/// `num::one` at `i64`: the literal `1`.
#[verifier::external_body]
fn num_one_i64() -> (r: i64)
    ensures
        r == 1,
{
    num::one::<i64>()
}

/// Signed 64-bit integers form the ring of integers modulo 2^64.
impl Scalar for i64 {
    open spec fn zero_value() -> i64 {
        0
    }

    open spec fn one_value() -> i64 {
        1
    }

    open spec fn sum(self, rhs: i64) -> i64 {
        vstd::wrapping::i64_specs::wrapping_add(self, rhs)
    }

    open spec fn product(self, rhs: i64) -> i64 {
        vstd::wrapping::i64_specs::wrapping_mul(self, rhs)
    }

    open spec fn negation(self) -> i64 {
        vstd::wrapping::i64_specs::wrapping_sub(0, self)
    }

    fn zero() -> (r: i64) {
        num_zero_i64()
    }

    fn one() -> (r: i64) {
        num_one_i64()
    }

    fn plus(self, rhs: i64) -> (r: i64) {
        self.wrapping_add(rhs)
    }

    fn times(self, rhs: i64) -> (r: i64) {
        self.wrapping_mul(rhs)
    }

    fn negate(self) -> (r: i64) {
        0i64.wrapping_sub(self)
    }
}

/// A run of at most `N` consecutive elements of an array, in the
/// one-dimensional order of its elements.
///
/// Only the first `valid_entries` items of `data` are elements of the array;
/// the rest is padding.
#[derive(Clone, Copy)]
pub struct DataChunk<Item: Scalar, const N: usize> {
    /// The elements, followed by padding.
    pub data: [Item; N],
    /// The one-dimensional index of the first element.
    pub start_index: usize,
    /// How many items of `data` are elements.
    pub valid_entries: usize,
}

/// The number of elements that chunk `chunk_index` of an array of `nelements`
/// elements holds when chunks have `n` slots; zero when there is no such chunk.
pub open spec fn chunk_len(n: int, chunk_index: int, nelements: int) -> int {
    if n * chunk_index >= nelements {
        0
    } else if n * chunk_index + n > nelements {
        nelements - n * chunk_index
    } else {
        n
    }
}

/// A chunk of zeros that stands for chunk `chunk_index` of an array of
/// `nelements` elements, or nothing when the array ends before that chunk
/// begins.
pub fn empty_chunk<const N: usize, Item: Scalar>(chunk_index: usize, nelements: usize) -> (r:
    Option<DataChunk<Item, N>>)
    ensures
        r.is_some() <==> N * chunk_index < nelements,
        r.is_some() ==> {
            let c = r.unwrap();
            &&& c.start_index == N * chunk_index
            &&& c.valid_entries == chunk_len(N as int, chunk_index as int, nelements as int)
            &&& c.valid_entries <= N
            &&& c.start_index + c.valid_entries <= nelements
            &&& forall|k: int| 0 <= k < N ==> c.data@[k] == Item::zero_value()
        },
{
    let start = match N.checked_mul(chunk_index) {
        Some(s) => s,
        None => {
            return None;
        },
    };
    if start >= nelements {
        return None;
    }
    let room: usize = nelements - start;
    let valid_entries: usize = if room < N {
        room
    } else {
        N
    };
    let zero = Item::zero();
    let data = [zero;N];
    proof {
        vstd::array::axiom_spec_array_fill_for_copy_type::<Item, N>(zero);
    }
    Some(DataChunk { data, start_index: start, valid_entries })
}

/// `Vec::as_mut_slice`: hands out all elements of the vector as one slice,
/// which the vector follows until the borrow ends. A slice cannot grow or
/// shrink, so the vector keeps its length, and the call cannot panic.
#[verifier::external_body]
pub(crate) fn whole_slice_mut<T>(v: &mut Vec<T>) -> (s: &mut [T])
    ensures
        s@ == old(v)@,
        final(s)@ == final(v)@,
        final(v)@.len() == old(v)@.len(),
    no_unwind
{
    v.as_mut_slice()
}

} // verus!
