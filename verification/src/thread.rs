//! The interface of a pool of worker threads, and the rules that every pool
//! follows.

use vstd::prelude::*;
use vstd::string::*;
use crate::error::KvsError;

verus! {

/// A pool of threads that runs the jobs handed to it.
pub trait ThreadPool: Sized {
    /// Creates a pool of `threads` threads. A pool that needs at least one
    /// thread refuses zero.
    fn new(threads: u32) -> Result<Self, KvsError>;

    /// Hands `job` to the pool and returns at once; some thread of the pool
    /// runs it.
    fn spawn<F>(&self, job: F) where F: FnOnce() + Send + 'static;
}

/// The ways in which a pool runs its jobs.
#[derive(Clone, Copy, Debug, PartialEq, Eq, Structural)]
pub enum PoolKind {
    /// One new thread for each job.
    Naive,
    /// A fixed number of threads that take their jobs from one queue.
    SharedQueue,
    /// A pool whose threads steal work from each other.
    Rayon,
}

/// The name under which the pool with one thread for each job is selected.
pub const NAIVE_POOL: &'static str = "naive";

/// The name under which the pool with one shared queue is selected.
pub const SHARED_QUEUE_POOL: &'static str = "shared";

/// The name under which the work-stealing pool is selected.
pub const RAYON_POOL: &'static str = "rayon";

/// The kind of pool that `name` selects, if it selects one.
pub fn select_pool(name: &str) -> (r: Option<PoolKind>)
    ensures
        r == if name@ == NAIVE_POOL@ {
            Some(PoolKind::Naive)
        } else if name@ == SHARED_QUEUE_POOL@ {
            Some(PoolKind::SharedQueue)
        } else if name@ == RAYON_POOL@ {
            Some(PoolKind::Rayon)
        } else {
            None::<PoolKind>
        },
{
    let given = name.to_owned();
    if given == NAIVE_POOL.to_owned() {
        Some(PoolKind::Naive)
    } else if given == SHARED_QUEUE_POOL.to_owned() {
        Some(PoolKind::SharedQueue)
    } else if given == RAYON_POOL.to_owned() {
        Some(PoolKind::Rayon)
    } else {
        None
    }
}

/// Whether a pool of the kind `kind` can have `threads` threads: a pool that
/// keeps its threads needs at least one, a pool that starts a thread for each
/// job takes any number and does not use it.
pub open spec fn size_suits(kind: PoolKind, threads: u32) -> bool {
    kind == PoolKind::Naive || threads > 0
}

/// The number of threads to start for a pool of the kind `kind` that is
/// asked to have `threads` threads, or an error where the kind cannot have
/// that many.
pub fn pool_size(kind: PoolKind, threads: u32) -> (r: Result<u32, KvsError>)
    ensures
        match r {
            Ok(size) => size_suits(kind, threads) && size == threads,
            Err(KvsError::InternalError(detail)) => !size_suits(kind, threads) && detail@
                == "a pool needs at least one thread"@,
            Err(_) => false,
        },
{
    match kind {
        PoolKind::Naive => Ok(threads),
        _ => if threads > 0 {
            Ok(threads)
        } else {
            Err(KvsError::InternalError(String::from_str("a pool needs at least one thread")))
        },
    }
}

} // verus!
