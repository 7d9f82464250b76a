use vstd::prelude::*;

use crate::processor::Processor;

verus! {

/// Marks the step that runs one system of either kind.
pub struct ExecuteSystem;

/// Marks the step that runs a synchronous system to its end.
pub struct ExecuteSyncSystem;

/// Marks the step that starts an asynchronous system as a future.
pub struct ExecuteAsyncSystem;

/// A system, which runs either synchronously or asynchronously.
pub enum SystemKind<S, A> {
    Sync(S),
    Async(A),
}

impl Processor<ExecuteSystem> {
    /// Runs a synchronous system to its end with `run_sync` and hands back its
    /// result as `Ok`; starts an asynchronous one with `start_async` and hands back
    /// the future that runs it as `Err`, to be polled later.
    pub fn execute_system<S, A, R, T, FS: FnOnce(S) -> R, FA: FnOnce(A) -> T>(
        system_kind: SystemKind<S, A>,
        run_sync: FS,
        start_async: FA,
    ) -> (r: Result<R, T>)
        requires
            match system_kind {
                SystemKind::Sync(s) => run_sync.requires((s,)),
                SystemKind::Async(a) => start_async.requires((a,)),
            },
        ensures
            match system_kind {
                SystemKind::Sync(s) => r matches Ok(out) && run_sync.ensures((s,), out),
                SystemKind::Async(a) => r matches Err(task) && start_async.ensures((a,), task),
            },
    {
        match system_kind {
            SystemKind::Sync(sync_system) => Ok(run_sync(sync_system)),
            SystemKind::Async(async_system) => Err(start_async(async_system)),
        }
    }
}

} // verus!
