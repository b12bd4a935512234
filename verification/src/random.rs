//! The boundary to the process-wide random generator.  Nothing is assumed
//! about which value comes back, only about its range, so every caller is
//! verified for every possible outcome.

use vstd::prelude::*;

verus! {

/// Relies on rand's `Rng::gen_range` over the thread-local generator: a
/// uniform draw from the half-open range `lo..hi`; it panics only on an
/// empty range.
#[verifier::external_body]
pub(crate) fn rand_range(lo: i64, hi: i64) -> (r: i64)
    requires
        lo < hi,
    ensures
        lo <= r < hi,
{
    rand::Rng::gen_range(&mut rand::thread_rng(), lo..hi)
}

/// Relies on rand's `seq::index::sample`: exactly `amount` distinct indices
/// drawn from `0..length`, in random order; it panics only when
/// `amount > length`.
#[verifier::external_body]
pub(crate) fn sample_indices(length: usize, amount: usize) -> (r: Vec<usize>)
    requires
        amount <= length,
    ensures
        r@.len() == amount,
        forall|i: int| 0 <= i < r@.len() ==> r@[i] < length,
        forall|i: int, j: int| 0 <= i < j < r@.len() ==> r@[i] != r@[j],
{
    rand::seq::index::sample(&mut rand::thread_rng(), length, amount).into_vec()
}

} // verus!
