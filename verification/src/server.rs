//! The one decision of the protocol-facing tool layer: how many of the
//! matching records a reply returns under an optional limit.

use vstd::prelude::*;

verus! {

/// How many records a reply returns: a positive limit below the total caps
/// the reply, any other limit returns everything.
pub open spec fn returned_count(total: nat, limit: int) -> nat {
    if 0 < limit < total {
        limit as nat
    } else {
        total
    }
}

/// Applies the optional result-count limit of the read operations.
pub fn limit_returned(total: usize, limit: i32) -> (r: usize)
    ensures
        r == returned_count(total as nat, limit as int),
        r <= total,
{
    if limit > 0 && (limit as usize) < total {
        limit as usize
    } else {
        total
    }
}

} // verus!
