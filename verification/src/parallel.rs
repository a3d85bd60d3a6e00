//! Work shared out to threads.

use rayon::prelude::{IntoParallelIterator, ParallelIterator};
use vstd::prelude::*;

verus! {

/// Applies `f` to each of `0..count`, on as many threads as there are, and collects the results in
/// the order of the numbers.
///
/// Calls rayon's `into_par_iter`, `map` and `collect` on a range. Believed of them: `f` is called
/// once for each number, and result `i` is what `f` returned for `i`. Nothing is said of the order
/// in which the calls are made.
#[verifier::external_body]
pub(crate) fn parallel_map<T: Send, F: Fn(usize) -> T + Sync + Send>(count: usize, f: F) -> (out: Vec<T>)
    requires
        forall|i: usize| i < count ==> call_requires(f, (i,)),
    ensures
        out@.len() == count,
        forall|i: usize| i < count ==> call_ensures(f, (i,), #[trigger] out@[i as int]),
{
    (0..count).into_par_iter().map(f).collect()
}

} // verus!
