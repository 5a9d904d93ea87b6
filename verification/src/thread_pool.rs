//! Worker pools for the server. The common trait is the contract the
//! server relies on; the pool here wraps rayon's work-stealing scheduler.
//! A queue-based pool with panic isolation is an alternative implementation
//! of the same trait for callers that need it.

use crate::KvsError;
use vstd::prelude::*;

verus! {

/// The contract every worker pool offers: construction with a fixed
/// number of workers, and fire-and-forget spawning of one-shot jobs.
pub trait WorkerPool: Sized {
    /// Create a pool with `num_threads` workers. Asking for zero workers
    /// is a configuration error, reported as `Err`.
    fn new(num_threads: usize) -> (r: Result<Self, KvsError>)
        ensures
            num_threads == 0 ==> !(r is Ok),
    ;

    /// Run `job` on some worker of the pool. The job must be callable
    /// unconditionally: a worker runs it with nothing but the closure's
    /// own precondition to go on.
    fn spawn<F: FnOnce() + Send + 'static>(&self, job: F)
        requires
            job.requires(()),
    ;
}

/// Declares rayon's pool type so a verified struct can hold one.
#[verifier::external_type_specification]
#[verifier::external_body]
pub struct ExRayonPool(rayon::ThreadPool);

/// Declares rayon's scope type so closures over it can pass through.
#[verifier::external_type_specification]
#[verifier::external_body]
pub struct ExRayonScope<'scope>(rayon::Scope<'scope>);

/// Declares rayon's builder error so the wrapper can return it.
#[verifier::external_type_specification]
#[verifier::external_body]
pub struct ExRayonBuildError(rayon::ThreadPoolBuildError);

/// Relies on rayon's `ThreadPoolBuilder`: builds a pool with
/// `num_threads` workers, or reports why none could be started.
#[verifier::external_body]
fn rayon_build(num_threads: usize) -> Result<rayon::ThreadPool, rayon::ThreadPoolBuildError> {
    rayon::ThreadPoolBuilder::new().num_threads(num_threads).build()
}

/// Relies on `rayon::ThreadPool::spawn`: runs the closure on a worker
/// thread of the pool. The job's precondition must hold, since the
/// worker calls it with no further context; a job that panicked outside
/// its precondition would take the process down with it.
#[verifier::external_body]
fn rayon_spawn<F: FnOnce() + Send + 'static>(pool: &rayon::ThreadPool, job: F)
    requires
        job.requires(()),
{
    pool.spawn(job)
}

/// Relies on `Display` for rayon's builder error: a description of the
/// failure.
#[verifier::external_body]
fn rayon_error_message(e: &rayon::ThreadPoolBuildError) -> String {
    e.to_string()
}

/// Relies on `rayon::ThreadPool::scope`: runs `op` once on a worker,
/// handing it a scope for nested spawns, and returns `op`'s own result.
/// The closure's precondition must hold for whatever scope it is given,
/// since rayon constructs the scope itself.
#[verifier::external_body]
fn rayon_scope<'scope, OP, R>(pool: &rayon::ThreadPool, op: OP) -> (r: R) where
    OP: FnOnce(&rayon::Scope<'scope>) -> R + Send,
    R: Send,

    requires
        forall|s: &rayon::Scope<'scope>| #[trigger] op.requires((s,)),
    ensures
        exists|s: &rayon::Scope<'scope>| op.ensures((s,), r),
{
    pool.scope(op)
}

/// A pool backed by rayon's work-stealing scheduler.
pub struct RayonThreadPool(rayon::ThreadPool);

impl WorkerPool for RayonThreadPool {
    /// A zero-size pool is refused with the configuration error; rayon
    /// would otherwise fall back to a default size. A builder failure is
    /// reported with its own message.
    fn new(num_threads: usize) -> (r: Result<Self, KvsError>)
        ensures
            num_threads == 0 ==> (r matches Result::Err(KvsError::StringError(_))),
            r is Ok || (r matches Result::Err(KvsError::StringError(_))),
    {
        if num_threads == 0 {
            return Result::Err(KvsError::StringError(
                "num_threads must greater than zero".to_owned(),
            ));
        }
        match rayon_build(num_threads) {
            Result::Ok(p) => Result::Ok(RayonThreadPool(p)),
            Result::Err(e) => Result::Err(KvsError::StringError(rayon_error_message(&e))),
        }
    }

    fn spawn<F: FnOnce() + Send + 'static>(&self, job: F) {
        rayon_spawn(&self.0, job)
    }
}

impl RayonThreadPool {
    /// Run `op` inside the pool with a scope for nested parallel work,
    /// returning its result.
    pub fn scope<'scope, OP, R>(&self, op: OP) -> (r: R) where
        OP: FnOnce(&rayon::Scope<'scope>) -> R + Send,
        R: Send,

        requires
            forall|s: &rayon::Scope<'scope>| #[trigger] op.requires((s,)),
        ensures
            exists|s: &rayon::Scope<'scope>| op.ensures((s,), r),
    {
        rayon_scope(&self.0, op)
    }
}

} // verus!
