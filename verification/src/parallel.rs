//! Work spread over threads.

use rayon::iter::{IntoParallelIterator, ParallelIterator};
use vstd::prelude::*;

verus! {

/// `rayon`'s parallel `map` and `collect` over a range: `f` is called on each
/// number below `n`, and its results come in the order of the numbers.
#[verifier::external_body]
pub(crate) fn par_map<T: Send, F: Fn(u32) -> T + Sync + Send>(n: u32, f: F) -> (r: Vec<T>)
    requires
        forall|i: u32| i < n ==> call_requires(f, (i,)),
    ensures
        r@.len() == n,
        forall|i: u32| i < n ==> call_ensures(f, (i,), #[trigger] r@[i as int]),
{
    (0..n).into_par_iter().map(f).collect()
}

} // verus!
