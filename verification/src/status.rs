use vstd::prelude::*;
use crate::error::FlowError;

verus! {

/// The completion state of a run, as its handle sees it: the first result
/// recorded, and whether cancellation was requested.  Blocking until the run
/// finishes belongs to the thread that waits; `wait` reads the result then.
pub struct RunHandle {
    result: Option<Result<(), FlowError>>,
    cancelled: bool,
}

pub open spec fn result_errors_same(a: Result<(), FlowError>, b: Result<(), FlowError>) -> bool {
    match (a, b) {
        (Ok(()), Ok(())) => true,
        (Err(x), Err(y)) => x.spec_task_id() == y.spec_task_id() && x.spec_task_name()
            == y.spec_task_name() && x.spec_message() == y.spec_message(),
        _ => false,
    }
}

fn duplicate_result(r: &Result<(), FlowError>) -> (d: Result<(), FlowError>)
    ensures
        result_errors_same(d, *r),
{
    match r {
        Ok(()) => Ok(()),
        Err(e) => Err(e.duplicate()),
    }
}

impl RunHandle {
    pub closed spec fn spec_result(&self) -> Option<Result<(), FlowError>> {
        self.result
    }

    pub closed spec fn spec_cancelled(&self) -> bool {
        self.cancelled
    }

    /// A run that has neither finished nor been cancelled.
    pub fn pending() -> (r: Self)
        ensures
            r.spec_result() is None,
            !r.spec_cancelled(),
    {
        RunHandle { result: None, cancelled: false }
    }

    /// Records the run's result unless one is recorded already; tells whether
    /// this call recorded it.
    pub fn complete(&mut self, result: Result<(), FlowError>) -> (recorded: bool)
        ensures
            recorded == (old(self).spec_result() is None),
            final(self).spec_cancelled() == old(self).spec_cancelled(),
            recorded ==> final(self).spec_result() == Some(result),
            !recorded ==> final(self).spec_result() == old(self).spec_result(),
    {
        if self.result.is_none() {
            self.result = Some(result);
            true
        } else {
            false
        }
    }

    pub fn is_finished(&self) -> (r: bool)
        ensures
            r == (self.spec_result() is Some),
    {
        self.result.is_some()
    }

    /// Requests cancellation; refused (false) once the run has finished.
    pub fn cancel(&mut self) -> (r: bool)
        ensures
            r == (old(self).spec_result() is None),
            final(self).spec_result() == old(self).spec_result(),
            final(self).spec_cancelled() == (old(self).spec_cancelled() || r),
    {
        if self.result.is_some() {
            return false;
        }
        self.cancelled = true;
        true
    }

    pub fn is_cancelled(&self) -> (r: bool)
        ensures
            r == self.spec_cancelled(),
    {
        self.cancelled
    }

    /// The result of the finished run.
    pub fn wait(&self) -> (r: Result<(), FlowError>)
        requires
            self.spec_result() is Some,
        ensures
            result_errors_same(r, self.spec_result()->Some_0),
    {
        match &self.result {
            Some(res) => duplicate_result(res),
            None => Ok(()),
        }
    }

    /// A copy of the recorded result, if the run finished.
    pub fn result(&self) -> (r: Option<Result<(), FlowError>>)
        ensures
            match (r, self.spec_result()) {
                (Some(a), Some(b)) => result_errors_same(a, b),
                (None, None) => true,
                _ => false,
            },
    {
        match &self.result {
            Some(res) => Some(duplicate_result(res)),
            None => None,
        }
    }
}

/// The handle of an asynchronous task: the run that executes it and the
/// value it produced, once stored.
pub struct AsyncHandle<T> {
    run: RunHandle,
    value: Option<T>,
}

impl<T> AsyncHandle<T> {
    pub closed spec fn spec_run(&self) -> RunHandle {
        self.run
    }

    pub closed spec fn spec_value(&self) -> Option<T> {
        self.value
    }

    /// A handle for a task that has not run yet.
    pub fn new(run: RunHandle) -> (r: Self)
        ensures
            r.spec_run() == run,
            r.spec_value() is None,
    {
        AsyncHandle { run, value: None }
    }

    /// Stores the value the task produced.
    pub fn store(&mut self, value: T)
        ensures
            final(self).spec_run() == old(self).spec_run(),
            final(self).spec_value() == Some(value),
    {
        self.value = Some(value);
    }

    /// Records the run's result; see `RunHandle::complete`.
    pub fn complete(&mut self, result: Result<(), FlowError>) -> (recorded: bool)
        ensures
            final(self).spec_value() == old(self).spec_value(),
            recorded == (old(self).spec_run().spec_result() is None),
            recorded ==> final(self).spec_run().spec_result() == Some(result),
            !recorded ==> final(self).spec_run().spec_result() == old(self).spec_run().spec_result(),
            final(self).spec_run().spec_cancelled() == old(self).spec_run().spec_cancelled(),
    {
        self.run.complete(result)
    }

    pub fn is_finished(&self) -> (r: bool)
        ensures
            r == (self.spec_run().spec_result() is Some),
    {
        self.run.is_finished()
    }

    /// The task's outcome once its run finished: the run's error if it
    /// failed, else the stored value, else an error saying that no value
    /// was produced.
    pub fn wait(self) -> (r: Result<T, FlowError>)
        requires
            self.spec_run().spec_result() is Some,
        ensures
            match self.spec_run().spec_result()->Some_0 {
                Err(e) => r matches Err(x) && x.spec_task_id() == e.spec_task_id()
                    && x.spec_task_name() == e.spec_task_name() && x.spec_message() == e.spec_message(),
                Ok(()) => match self.spec_value() {
                    Some(v) => r == Ok::<T, FlowError>(v),
                    None => r matches Err(x) && x.spec_task_id() is None && x.spec_task_name() is None
                        && x.spec_message() == no_value_message(),
                },
            },
    {
        match self.run.wait() {
            Err(e) => Err(e),
            Ok(()) => match self.value {
                Some(v) => Ok(v),
                None => Err(FlowError::plain("async task completed without producing a value")),
            },
        }
    }
}

pub open spec fn no_value_message() -> Seq<char> {
    "async task completed without producing a value"@
}

/// The error slot of a graph run: the first task error is kept.
pub fn record_error(slot: &mut Option<FlowError>, error: FlowError)
    ensures
        *old(slot) is None ==> *final(slot) == Some(error),
        *old(slot) is Some ==> *final(slot) == *old(slot),
{
    if slot.is_none() {
        *slot = Some(error);
    }
}

/// The result a finished graph run reports: its first task error, if any.
pub fn final_result(slot: &Option<FlowError>) -> (r: Result<(), FlowError>)
    ensures
        match (r, *slot) {
            (Ok(()), None) => true,
            (Err(a), Some(b)) => a.spec_task_id() == b.spec_task_id() && a.spec_task_name()
                == b.spec_task_name() && a.spec_message() == b.spec_message(),
            _ => false,
        },
{
    match slot {
        Some(e) => Err(e.duplicate()),
        None => Ok(()),
    }
}

/// Bookkeeping of the children spawned from one runtime task: how many are still
/// running, and whether one of them failed.
pub struct JoinScope {
    pending_children: usize,
    has_error: bool,
}

pub open spec fn child_failed_message() -> Seq<char> {
    "runtime child task failed"@
}

impl JoinScope {
    pub closed spec fn spec_pending(&self) -> nat {
        self.pending_children as nat
    }

    pub closed spec fn spec_has_error(&self) -> bool {
        self.has_error
    }

    pub fn new() -> (r: Self)
        ensures
            r.spec_pending() == 0,
            !r.spec_has_error(),
    {
        JoinScope { pending_children: 0, has_error: false }
    }

    /// Registers a child; tells whether it is the only one running.
    pub fn add_child(&mut self) -> (first: bool)
        requires
            old(self).spec_pending() < usize::MAX,
        ensures
            first == (old(self).spec_pending() == 0),
            final(self).spec_pending() == old(self).spec_pending() + 1,
            final(self).spec_has_error() == old(self).spec_has_error(),
    {
        let first = self.pending_children == 0;
        self.pending_children = self.pending_children + 1;
        first
    }

    /// A child ended; a failure is remembered.  Tells whether it was the last one
    /// running.
    pub fn finish_child(&mut self, failed: bool) -> (last: bool)
        requires
            old(self).spec_pending() > 0,
        ensures
            last == (old(self).spec_pending() == 1),
            final(self).spec_pending() == old(self).spec_pending() - 1,
            final(self).spec_has_error() == (old(self).spec_has_error() || failed),
    {
        if failed {
            self.has_error = true;
        }
        let previous = self.pending_children;
        self.pending_children = previous - 1;
        previous == 1
    }

    pub fn is_idle(&self) -> (r: bool)
        ensures
            r == (self.spec_pending() == 0),
    {
        self.pending_children == 0
    }

    pub fn pending_children(&self) -> (r: usize)
        ensures
            r == self.spec_pending(),
    {
        self.pending_children
    }

    /// Reports and forgets a remembered child failure.
    pub fn take_error(&mut self) -> (r: Option<FlowError>)
        ensures
            final(self).spec_pending() == old(self).spec_pending(),
            !final(self).spec_has_error(),
            match r {
                Some(e) => old(self).spec_has_error() && e.spec_task_id() is None && e.spec_message() == child_failed_message(),
                None => !old(self).spec_has_error(),
            },
    {
        if self.has_error {
            self.has_error = false;
            Some(FlowError::plain("runtime child task failed"))
        } else {
            None
        }
    }
}

pub open spec fn group_panicked_message() -> Seq<char> {
    "task in task group panicked"@
}

/// The state shared by the children of a task group.
pub struct TaskGroupState {
    scope: JoinScope,
    cancelled: bool,
}

impl TaskGroupState {
    pub closed spec fn spec_scope(&self) -> JoinScope {
        self.scope
    }

    pub closed spec fn spec_cancelled(&self) -> bool {
        self.cancelled
    }

    pub fn new(cancelled: bool) -> (r: Self)
        ensures
            r.spec_scope().spec_pending() == 0,
            !r.spec_scope().spec_has_error(),
            r.spec_cancelled() == cancelled,
    {
        TaskGroupState { scope: JoinScope::new(), cancelled }
    }

    pub fn add_child(&mut self) -> (first: bool)
        requires
            old(self).spec_scope().spec_pending() < usize::MAX,
        ensures
            first == (old(self).spec_scope().spec_pending() == 0),
            final(self).spec_scope().spec_pending() == old(self).spec_scope().spec_pending() + 1,
            final(self).spec_scope().spec_has_error() == old(self).spec_scope().spec_has_error(),
            final(self).spec_cancelled() == old(self).spec_cancelled(),
    {
        self.scope.add_child()
    }

    pub fn finish_child(&mut self, failed: bool) -> (last: bool)
        requires
            old(self).spec_scope().spec_pending() > 0,
        ensures
            last == (old(self).spec_scope().spec_pending() == 1),
            final(self).spec_scope().spec_pending() == old(self).spec_scope().spec_pending() - 1,
            final(self).spec_scope().spec_has_error() == (old(self).spec_scope().spec_has_error() || failed),
            final(self).spec_cancelled() == old(self).spec_cancelled(),
    {
        self.scope.finish_child(failed)
    }

    pub fn cancel(&mut self)
        ensures
            final(self).spec_cancelled(),
            final(self).spec_scope() == old(self).spec_scope(),
    {
        self.cancelled = true;
    }

    pub fn is_cancelled(&self) -> (r: bool)
        ensures
            r == self.spec_cancelled(),
    {
        self.cancelled
    }

    pub fn is_idle(&self) -> (r: bool)
        ensures
            r == (self.spec_scope().spec_pending() == 0),
    {
        self.scope.is_idle()
    }

    pub fn pending_children(&self) -> (r: usize)
        ensures
            r == self.spec_scope().spec_pending(),
    {
        self.scope.pending_children()
    }

    /// What waiting on an idle group reports: an error when a child panicked
    /// (the failure is forgotten afterwards), success otherwise.
    pub fn corun_result(&mut self) -> (r: Result<(), FlowError>)
        ensures
            final(self).spec_scope().spec_pending() == old(self).spec_scope().spec_pending(),
            !final(self).spec_scope().spec_has_error(),
            final(self).spec_cancelled() == old(self).spec_cancelled(),
            match r {
                Ok(()) => !old(self).spec_scope().spec_has_error(),
                Err(e) => old(self).spec_scope().spec_has_error() && e.spec_task_id() is None
                    && e.spec_message() == group_panicked_message(),
            },
    {
        match self.scope.take_error() {
            Some(_) => Err(FlowError::plain("task in task group panicked")),
            None => Ok(()),
        }
    }
}

/// The number of unfinished dependencies of a dependent asynchronous task.  It
/// starts at one, held by the spawner until every dependency is registered.
pub struct DependencyCount {
    pending: usize,
}

impl DependencyCount {
    pub closed spec fn spec_pending(&self) -> nat {
        self.pending as nat
    }

    pub fn new() -> (r: Self)
        ensures
            r.spec_pending() == 1,
    {
        DependencyCount { pending: 1 }
    }

    /// The number of unfinished dependencies, the spawner's hold included.
    pub fn pending(&self) -> (r: usize)
        ensures
            r == self.spec_pending(),
    {
        self.pending
    }

    pub fn add(&mut self)
        requires
            old(self).spec_pending() < usize::MAX,
        ensures
            final(self).spec_pending() == old(self).spec_pending() + 1,
    {
        self.pending = self.pending + 1;
    }

    /// One dependency is satisfied; tells whether the task may now be scheduled.
    pub fn satisfied(&mut self) -> (ready: bool)
        requires
            old(self).spec_pending() > 0,
        ensures
            final(self).spec_pending() == old(self).spec_pending() - 1,
            ready == (final(self).spec_pending() == 0),
    {
        let previous = self.pending;
        self.pending = previous - 1;
        previous == 1
    }
}

/// The successors waiting on an asynchronous task, and whether it finished.
pub struct SuccessorList<S> {
    finished: bool,
    successors: Vec<S>,
}

impl<S> SuccessorList<S> {
    pub closed spec fn spec_finished(&self) -> bool {
        self.finished
    }

    pub closed spec fn spec_successors(&self) -> Seq<S> {
        self.successors@
    }

    pub fn new() -> (r: Self)
        ensures
            !r.spec_finished(),
            r.spec_successors().len() == 0,
    {
        SuccessorList { finished: false, successors: Vec::new() }
    }

    /// Registers a successor.  When the task already finished, the successor is
    /// handed back at once (its dependency is satisfied); otherwise it is kept.
    pub fn register(&mut self, successor: S) -> (r: Option<S>)
        ensures
            final(self).spec_finished() == old(self).spec_finished(),
            old(self).spec_finished() ==> r == Some(successor) && final(self).spec_successors() == old(self).spec_successors(),
            !old(self).spec_finished() ==> r is None && final(self).spec_successors() == old(self).spec_successors().push(successor),
    {
        if self.finished {
            Some(successor)
        } else {
            self.successors.push(successor);
            None
        }
    }

    /// Marks the task finished and hands out every registered successor.
    pub fn finish(&mut self) -> (r: Vec<S>)
        ensures
            final(self).spec_finished(),
            final(self).spec_successors().len() == 0,
            r@ == old(self).spec_successors(),
    {
        self.finished = true;
        let mut out: Vec<S> = Vec::new();
        std::mem::swap(&mut out, &mut self.successors);
        out
    }
}

/// A counting semaphore and the tasks waiting for it.
pub struct Semaphore<W> {
    max_value: usize,
    current_value: usize,
    waiters: Vec<W>,
}

impl<W> Semaphore<W> {
    pub closed spec fn spec_max(&self) -> nat {
        self.max_value as nat
    }

    pub closed spec fn spec_value(&self) -> nat {
        self.current_value as nat
    }

    pub closed spec fn spec_waiters(&self) -> Seq<W> {
        self.waiters@
    }

    pub fn new(max_value: usize) -> (r: Self)
        ensures
            r.spec_max() == max_value,
            r.spec_value() == max_value,
            r.spec_waiters().len() == 0,
    {
        Semaphore { max_value, current_value: max_value, waiters: Vec::new() }
    }

    pub fn value(&self) -> (r: usize)
        ensures
            r == self.spec_value(),
    {
        self.current_value
    }

    pub fn max_value(&self) -> (r: usize)
        ensures
            r == self.spec_max(),
    {
        self.max_value
    }

    /// Restores the full count and forgets the waiters.
    pub fn reset(&mut self)
        ensures
            final(self).spec_max() == old(self).spec_max(),
            final(self).spec_value() == old(self).spec_max(),
            final(self).spec_waiters().len() == 0,
    {
        self.current_value = self.max_value;
        self.waiters = Vec::new();
    }

    /// Sets a new maximum, restores the full count and forgets the waiters.
    pub fn reset_with(&mut self, max_value: usize)
        ensures
            final(self).spec_max() == max_value,
            final(self).spec_value() == max_value,
            final(self).spec_waiters().len() == 0,
    {
        self.max_value = max_value;
        self.current_value = max_value;
        self.waiters = Vec::new();
    }

    /// Takes one unit if one is free; otherwise the task is queued as a waiter.
    pub fn try_acquire_or_wait(&mut self, task: W) -> (acquired: bool)
        ensures
            final(self).spec_max() == old(self).spec_max(),
            acquired == (old(self).spec_value() > 0),
            acquired ==> final(self).spec_value() == old(self).spec_value() - 1 && final(self).spec_waiters() == old(self).spec_waiters(),
            !acquired ==> final(self).spec_value() == old(self).spec_value() && final(self).spec_waiters() == old(self).spec_waiters().push(task),
    {
        if self.current_value > 0 {
            self.current_value = self.current_value - 1;
            true
        } else {
            self.waiters.push(task);
            false
        }
    }

    /// Gives one unit back and hands every waiter to `woken`, to be scheduled
    /// again.
    pub fn release(&mut self, woken: &mut Vec<W>)
        requires
            old(self).spec_value() < old(self).spec_max(),
        ensures
            final(self).spec_max() == old(self).spec_max(),
            final(self).spec_value() == old(self).spec_value() + 1,
            final(self).spec_waiters().len() == 0,
            final(woken)@ == old(woken)@ + old(self).spec_waiters(),
    {
        self.current_value = self.current_value + 1;
        woken.append(&mut self.waiters);
    }
}

/// The result a run handle holds after the completions `results`, in
/// order, starting from `recorded` (as `RunHandle::complete` states each).
pub open spec fn result_after(recorded: Option<Result<(), FlowError>>, results: Seq<Result<(), FlowError>>) -> Option<
    Result<(), FlowError>,
>
    decreases results.len(),
{
    if results.len() == 0 {
        recorded
    } else {
        let before = result_after(recorded, results.drop_last());
        if before is None {
            Some(results.last())
        } else {
            before
        }
    }
}

/// Law: a run handle keeps the first result it was completed with; later
/// completions change nothing, so every wait after the first completion
/// returns that result.
pub proof fn lemma_first_result_kept(recorded: Option<Result<(), FlowError>>, results: Seq<Result<(), FlowError>>)
    ensures
        result_after(recorded, results) == (if recorded is Some {
            recorded
        } else if results.len() > 0 {
            Some(results[0])
        } else {
            None
        }),
    decreases results.len(),
{
    if results.len() > 0 {
        lemma_first_result_kept(recorded, results.drop_last());
        if results.len() > 1 {
            assert(results.drop_last()[0] == results[0]);
        }
    }
}

} // verus!
