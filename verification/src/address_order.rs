//! The order in which the addresses of a query come.

use vstd::prelude::*;

verus! {

/// `s` is ordered low to high; equal neighbours are allowed.
pub open spec fn sorted(s: Seq<u32>) -> bool {
    forall|i: int, j: int| 0 <= i <= j < s.len() ==> s[i] <= s[j]
}

/// Whether the addresses are ordered low to high.
pub fn is_sorted(addresses: &[u32]) -> (b: bool)
    ensures
        b == sorted(addresses@),
{
    let mut k: usize = 1;
    while k < addresses.len()
        invariant
            1 <= k,
            forall|i: int, j: int|
                0 <= i <= j < k && j < addresses@.len() ==> addresses@[i] <= addresses@[j],
        decreases addresses@.len() - k,
    {
        if addresses[k - 1] > addresses[k] {
            return false;
        }
        assert forall|i: int, j: int|
            0 <= i <= j < k + 1 && j < addresses@.len() implies addresses@[i] <= addresses@[j] by {
            if j == k && i < k {
                assert(addresses@[i] <= addresses@[k - 1]);
            }
        }
        k += 1;
    }
    true
}

} // verus!
