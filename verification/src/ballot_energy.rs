//! Ballot energy: the integer part of the ballot scoring model.
//!
//! The anonymity set of a proof is the number of leaves of the registry
//! tree, `2^tree_depth`, saturating at `u64::MAX` once the depth reaches
//! the width of a `u64`.

use vstd::prelude::*;
use vstd::arithmetic::power2::pow2;

verus! {

/// Anonymity set size for a registry tree of depth `tree_depth`:
/// `2^tree_depth`, or `u64::MAX` when `tree_depth >= 64`.
pub fn anonymity_set(tree_depth: usize) -> (r: u64)
    ensures
        tree_depth >= 64 ==> r == u64::MAX,
        tree_depth < 64 ==> r == pow2(tree_depth as nat),
{
    if tree_depth >= 64 {
        u64::MAX
    } else {
        let d = tree_depth as u64;
        proof {
            vstd::bits::lemma_u64_pow2_no_overflow(d as nat);
            vstd::bits::lemma_u64_shl_is_mul(1, d);
        }
        1u64 << d
    }
}

} // verus!
