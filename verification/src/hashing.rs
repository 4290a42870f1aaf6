//! Keccak-256 digests, and ordering by digest.

use crate::bytes::{bytes_le, B256};
use rayon::slice::ParallelSliceMut;
use vstd::prelude::*;

verus! {

/// The Keccak-256 digest of a byte string.
pub uninterp spec fn keccak(data: Seq<u8>) -> [u8; 32];

/// Computes the Keccak-256 digest of a byte string.
///
/// Calls `alloy_primitives::keccak256`. What is claimed of it: the digest depends on the bytes
/// alone. The digest function itself is only named.
#[verifier::external_body]
pub(crate) fn keccak256(data: &[u8]) -> (digest: B256)
    ensures
        digest == keccak(data@),
{
    alloy_primitives::keccak256(data).0
}

/// Every pair stands after no pair with a larger second part.
pub open spec fn sorted_by_digest<const N: usize>(pairs: Seq<([u8; N], B256)>) -> bool {
    forall|i: int, j: int|
        #![trigger pairs[i], pairs[j]]
        0 <= i < j < pairs.len() ==> bytes_le(pairs[i].1@, pairs[j].1@)
}

/// Sorts pairs of a byte string and a digest by the digest.
///
/// Calls `par_sort_unstable_by_key` of rayon's `ParallelSliceMut` with the digest as the key.
/// What is claimed of it: the pairs afterwards are the same pairs, as often as before, and they
/// stand in ascending lexicographic order of their digests. The order among equal digests is
/// left open.
#[verifier::external_body]
pub(crate) fn sort_by_digest<const N: usize>(pairs: &mut Vec<([u8; N], B256)>)
    ensures
        final(pairs)@.to_multiset() == old(pairs)@.to_multiset(),
        sorted_by_digest(final(pairs)@),
{
    pairs.par_sort_unstable_by_key(|pair| pair.1);
}

} // verus!
