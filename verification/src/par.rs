//! Work spread over the threads of the current pool.

use vstd::prelude::*;
use rayon::iter::IntoParallelIterator;
use rayon::iter::ParallelIterator;

verus! {

/// Computes `f(0)`, ..., `f(n - 1)` in parallel and collects the results in that order:
/// `rayon`'s `map` and `collect` on the parallel iterator of a `Range<usize>`. The iterator
/// is indexed, and `collect` into a `Vec` keeps the order of the items. Trusted: that there
/// are `n` results, and that the one at position `i` is what a call of `f` on `i` returned.
#[verifier::external_body]
pub(crate) fn par_map<R: Send, F: Fn(usize) -> R + Sync + Send>(n: usize, f: F) -> (r: Vec<R>)
    requires
        forall|i: usize| i < n ==> call_requires(f, (i,)),
    ensures
        r@.len() == n,
        forall|i: int| 0 <= i < n ==> call_ensures(f, (i as usize,), #[trigger] r@[i]),
{
    (0..n).into_par_iter().map(f).collect()
}

} // verus!
