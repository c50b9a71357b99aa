//! Data-parallel integer summation: the input is split into disjoint
//! read-only chunks whose partial sums are combined after a join. Integer
//! addition is associative and commutative, so the combined result is
//! exactly the sequential sum, independent of the reduction order.

use vstd::prelude::*;
use rayon::prelude::ParallelIterator;
use rayon::prelude::IntoParallelRefIterator;

verus! {

/// Largest magnitude a summand may have so that, together with the length
/// bound, every partial sum of any contiguous chunk stays inside `i64`.
pub const SUMMAND_LIMIT: i64 = 1073741824;

/// Largest number of summands accepted.
pub const SUMMAND_COUNT_LIMIT: usize = 1073741824;

/// The sequential sum of `s`.
pub open spec fn seq_sum(s: Seq<i64>) -> int
    decreases s.len(),
{
    if s.len() == 0 {
        0
    } else {
        seq_sum(s.drop_last()) + s.last()
    }
}

/// Relies on rayon's `ParallelIterator::sum`, documented as equivalent to
/// reducing with `0` and `+` in an unspecified order over disjoint chunks:
/// `i64` addition is associative and commutative, so every order yields
/// the sequential sum, and the bounds keep each partial sum of a
/// contiguous chunk inside `i64`.
#[verifier::external_body]
fn par_sum(items: &Vec<i64>) -> (r: i64)
    requires
        items@.len() <= SUMMAND_COUNT_LIMIT,
        forall|k: int| 0 <= k < items@.len()
            ==> -SUMMAND_LIMIT <= #[trigger] items@[k] <= SUMMAND_LIMIT,
    ensures
        r as int == seq_sum(items@),
{
    items.par_iter().sum()
}

/// Sums the values, computing partial sums of disjoint chunks in parallel.
pub fn parallel_sum(items: &Vec<i64>) -> (r: i64)
    requires
        items@.len() <= SUMMAND_COUNT_LIMIT,
        forall|k: int| 0 <= k < items@.len()
            ==> -SUMMAND_LIMIT <= #[trigger] items@[k] <= SUMMAND_LIMIT,
    ensures
        r as int == seq_sum(items@),
{
    par_sum(items)
}

} // verus!
