//! Byte counts that stop at the largest machine number instead of overflowing.

use vstd::prelude::*;

verus! {

/// `count`, or the largest machine number where it is larger than that.
pub open spec fn capped(count: int) -> int {
    if count > usize::MAX {
        usize::MAX as int
    } else {
        count
    }
}

/// The capped product of two counts.
pub(crate) fn capped_product(left: usize, right: usize) -> (product: usize)
    ensures
        product == capped(left * right),
{
    assert(left * right >= 0) by (nonlinear_arith);
    match left.checked_mul(right) {
        Some(product) => product,
        None => usize::MAX,
    }
}

} // verus!
