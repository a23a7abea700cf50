//! Work spread over the threads of the global thread pool.
use vstd::prelude::*;
use crate::arith::{ceil_quotient, ceil_quotient_usize, greater, lesser, max_usize, min_usize};
use rayon::prelude::{IntoParallelIterator, ParallelIterator};

verus! {

/// How many threads the current thread pool has, as `rayon::current_num_threads` says. It depends on
/// the machine and on how the pool was set up; all that is claimed is that a pool has a thread.
#[verifier::external_body]
pub(crate) fn thread_count() -> (r: usize)
    ensures
        r > 0,
{
    rayon::current_num_threads()
}

/// Calls a function on every item of a list and collects what it returns, in the order of the items.
/// This is `into_par_iter().map(..).collect()` of rayon on a `Vec`: the calls may run on any threads and
/// in any order, and the result holds at every place what a call on the item at that place returned.
#[verifier::external_body]
pub(crate) fn map_in_parallel<T: Send, R: Send, F: Fn(T) -> R + Sync + Send>(items: Vec<T>, f: F) -> (r:
    Vec<R>)
    requires
        forall|i: int| 0 <= i < items@.len() ==> call_requires(f, (#[trigger] items@[i],)),
    ensures
        r@.len() == items@.len(),
        forall|i: int|
            0 <= i < items@.len() ==> call_ensures(f, (items@[i],), #[trigger] r@[i]),
{
    items.into_par_iter().map(f).collect()
}

/// How many workers there are of a number of threads: as many as asked for, or as there are threads if
/// none are asked for, but at least one.
pub fn worker_count(requested: usize, threads: usize) -> (r: usize)
    ensures
        r == greater(
            if requested == 0 {
                threads as int
            } else {
                requested as int
            },
            1,
        ),
{
    max_usize(
        if requested == 0 {
            threads
        } else {
            requested
        },
        1,
    )
}

/// How many workers do so many tasks of a number of threads, no more than there are tasks, and how many
/// tasks each but the last of them does.
pub fn task_chunks(tasks: usize, requested: usize, threads: usize) -> (r: (usize, usize))
    ensures
        r.0 == lesser(
            greater(
                if requested == 0 {
                    threads as int
                } else {
                    requested as int
                },
                1,
            ),
            greater(tasks as int, 1),
        ),
        r.1 == ceil_quotient(tasks as int, r.0 as int),
{
    let workers: usize = min_usize(worker_count(requested, threads), max_usize(tasks, 1));
    (workers, ceil_quotient_usize(tasks, workers))
}

/// How many workers share some work of a number of threads: as many as asked for but no more than there
/// are threads, or all threads if none are asked for; at least one, but no more than there is work.
pub fn workers_within(requested: usize, threads: usize, work: usize) -> (r: usize)
    ensures
        r == lesser(
            greater(
                if requested == 0 {
                    threads as int
                } else {
                    lesser(requested as int, threads as int)
                },
                1,
            ),
            work as int,
        ),
{
    min_usize(
        max_usize(
            if requested == 0 {
                threads
            } else {
                min_usize(requested, threads)
            },
            1,
        ),
        work,
    )
}

/// How many workers there are: as many as asked for, or as the thread pool has threads if none are
/// asked for.
pub fn effective_worker_count(requested: usize) -> (r: usize)
    ensures
        r > 0,
        requested > 0 ==> r == requested,
{
    worker_count(requested, thread_count())
}

} // verus!
