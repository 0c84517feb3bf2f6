//! Whether two handles share one allocation.

use std::sync::Arc;
use vstd::prelude::*;

verus! {

/// Calls `std::sync::Arc::ptr_eq`, which says whether two handles point to the same allocation.
///
/// The contract claims that handles to one allocation hold the same value. Where the handles point
/// to different allocations nothing is claimed: their values may still be equal. Which handles
/// share an allocation is left unsaid, since an address is not a function of the values.
#[verifier::external_body]
pub(crate) fn same_allocation<T>(left: &Arc<T>, right: &Arc<T>) -> (same: bool)
    ensures
        same ==> **left == **right,
{
    Arc::ptr_eq(left, right)
}

} // verus!
