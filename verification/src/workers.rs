//! The pool of workers that encodes the windows of a buffer side by side.

use rayon::iter::{IntoParallelRefIterator, ParallelIterator};
use vstd::prelude::*;

verus! {

/// `rayon::ThreadPool`, a pool of worker threads. It is carried from where
/// it is started to where work is handed to it, and never looked into.
#[verifier::external_type_specification]
#[verifier::external_body]
pub struct ExThreadPool(rayon::ThreadPool);

/// `rayon::ThreadPoolBuildError`, what rayon reports when a pool does not
/// start. Its cause is not looked into.
#[verifier::external_type_specification]
#[verifier::external_body]
pub struct ExThreadPoolBuildError(rayon::ThreadPoolBuildError);

/// Starts a pool of its own with `rayon::ThreadPoolBuilder`: `new`, then
/// `num_threads(workers)`, then `build`. Whether the pool starts is up to
/// the machine, so nothing is claimed of the result. With `workers` at 0
/// rayon picks the number of threads itself.
#[verifier::external_body]
pub(crate) fn start_pool(workers: usize) -> (pool: Result<
    rayon::ThreadPool,
    rayon::ThreadPoolBuildError,
>) {
    rayon::ThreadPoolBuilder::new().num_threads(workers).build()
}

/// Applies `encode` to every window on the workers of `pool`: rayon's
/// `par_iter`, `map` and `collect` into a `Vec`, run inside
/// `ThreadPool::install`. The claim is that of rayon's indexed collect:
/// one result for each window, in the order of the windows whichever
/// worker finished first, each of them a value that `encode` returns for
/// its window.
#[verifier::external_body]
pub(crate) fn map_windows<F>(
    pool: &rayon::ThreadPool,
    windows: &Vec<(usize, usize)>,
    encode: F,
) -> (parts: Vec<Vec<u8>>) where F: Fn(&(usize, usize)) -> Vec<u8> + Sync + Send
    requires
        forall|k: int|
            0 <= k < windows@.len() ==> call_requires(encode, (&#[trigger] windows@[k],)),
    ensures
        parts@.len() == windows@.len(),
        forall|k: int|
            0 <= k < windows@.len() ==> call_ensures(encode, (&windows@[k],), #[trigger] parts@[k]),
{
    pool.install(|| windows.par_iter().map(encode).collect())
}

} // verus!
