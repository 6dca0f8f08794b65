//! An interactive Sum-Check protocol library over the prime field of
//! order 97, in three variants: a naive protocol over sparse multivariate
//! polynomials, a multilinear protocol with incremental evaluation tables,
//! and a product-of-multilinears protocol with verifier-side interpolation.
//! A small stand-alone sorting utility is bundled alongside.
use vstd::prelude::*;

pub mod common;
pub mod field;
pub mod poly;
pub mod sumcheck_ml;
pub mod sorting;
pub mod sumcheck_naive;
pub mod sumcheck_pml;

verus! {

/// Sorts the vector in place; a thin front door over
/// [`sorting::merge_sort`].
pub fn sort_arr(arr: &mut Vec<u64>)
    ensures
        sorting::is_sorted(final(arr)@),
        final(arr)@.to_multiset() == old(arr)@.to_multiset(),
        final(arr)@.len() == old(arr)@.len(),
{
    sorting::merge_sort(arr);
}

} // verus!
