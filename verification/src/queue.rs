use vstd::prelude::*;
use crossbeam_deque::{Injector, Stealer, Worker};

verus! {

#[verifier::external_type_specification]
#[verifier::external_body]
#[verifier::reject_recursive_types(T)]
pub struct ExWorker<T>(Worker<T>);

#[verifier::external_type_specification]
#[verifier::external_body]
#[verifier::reject_recursive_types(T)]
pub struct ExStealer<T>(Stealer<T>);

#[verifier::external_type_specification]
#[verifier::external_body]
#[verifier::reject_recursive_types(T)]
pub struct ExInjector<T>(Injector<T>);

/// What one attempt to take work from a shared queue gave.
pub enum StealOutcome<T> {
    /// The queue was empty.
    Empty,
    /// A task was taken.
    Success(T),
    /// The attempt collided with another thread and may be repeated.
    Retry,
}

/// `Worker::new_lifo`: a new, empty per-worker deque whose owner pops the
/// most recently pushed task.  Nothing is claimed of the value.
#[verifier::external_body]
fn new_lifo_worker<T>() -> Worker<T> {
    Worker::new_lifo()
}

/// `Worker::stealer`: a handle through which other threads take tasks from
/// the front of this deque.  Nothing is claimed of the value.
#[verifier::external_body]
fn worker_stealer<T>(worker: &Worker<T>) -> Stealer<T> {
    worker.stealer()
}

/// `Worker::push`: adds a task to the owner's end of the deque.
#[verifier::external_body]
fn worker_push<T>(worker: &Worker<T>, task: T) {
    worker.push(task);
}

/// `Worker::pop`: takes a task from the owner's end, or `None`.  Other
/// threads may steal concurrently, so nothing is claimed of the result.
#[verifier::external_body]
fn worker_pop<T>(worker: &Worker<T>) -> Option<T> {
    worker.pop()
}

/// `Injector::new`: a new, empty shared FIFO queue.
#[verifier::external_body]
fn new_injector<T>() -> Injector<T> {
    Injector::new()
}

/// `Injector::push`: adds a task at the back of the shared queue.
#[verifier::external_body]
fn injector_push<T>(injector: &Injector<T>, task: T) {
    injector.push(task);
}

/// `Injector::steal_batch_and_pop`: moves a batch of tasks from the shared
/// queue into `dest` and takes one of them.  Which outcome comes depends on
/// other threads, so nothing is claimed of it.
#[verifier::external_body]
fn injector_steal_batch_and_pop<T>(injector: &Injector<T>, dest: &Worker<T>) -> StealOutcome<T> {
    match injector.steal_batch_and_pop(dest) {
        crossbeam_deque::Steal::Empty => StealOutcome::Empty,
        crossbeam_deque::Steal::Success(task) => StealOutcome::Success(task),
        crossbeam_deque::Steal::Retry => StealOutcome::Retry,
    }
}

/// `Stealer::steal`: takes the task at the front of another worker's deque.
/// Which outcome comes depends on other threads, so nothing is claimed of it.
#[verifier::external_body]
fn stealer_steal<T>(stealer: &Stealer<T>) -> StealOutcome<T> {
    match stealer.steal() {
        crossbeam_deque::Steal::Empty => StealOutcome::Empty,
        crossbeam_deque::Steal::Success(task) => StealOutcome::Success(task),
        crossbeam_deque::Steal::Retry => StealOutcome::Retry,
    }
}

/// The queues of a work-stealing pool: one deque per worker, a stealer for
/// each of them, and the shared injector.
#[verifier::reject_recursive_types(T)]
pub struct WorkQueues<T> {
    pub workers: Vec<Worker<T>>,
    pub stealers: Vec<Stealer<T>>,
    pub injector: Injector<T>,
}

impl<T> WorkQueues<T> {
    /// Queues for `worker_count` workers.
    pub fn new(worker_count: usize) -> (r: Self)
        ensures
            r.workers@.len() == worker_count,
            r.stealers@.len() == worker_count,
    {
        let mut workers: Vec<Worker<T>> = Vec::new();
        let mut stealers: Vec<Stealer<T>> = Vec::new();
        let mut i: usize = 0;
        while i < worker_count
            invariant
                i <= worker_count,
                workers@.len() == i,
                stealers@.len() == i,
            decreases worker_count - i,
        {
            let worker = new_lifo_worker();
            stealers.push(worker_stealer(&worker));
            workers.push(worker);
            i = i + 1;
        }
        WorkQueues { workers, stealers, injector: new_injector() }
    }
}

/// The victim `offset` steps after the worker following `worker_id`.
pub open spec fn victim_at(worker_id: nat, n: nat, offset: nat) -> nat {
    (((worker_id as int + 1) % (n as int) + offset as int) % (n as int)) as nat
}

/// The workers `worker_id` tries to steal from, in order: every other
/// worker once, starting with the next one and wrapping around.
pub open spec fn steal_order_spec(worker_id: nat, n: nat) -> Seq<usize> {
    Seq::new(n, |offset: int| victim_at(worker_id, n, offset as nat) as usize).filter(other_than(worker_id))
}

/// Every worker but `worker_id`.
pub open spec fn other_than(worker_id: nat) -> spec_fn(usize) -> bool {
    |v: usize| v != worker_id
}

/// The order in which a worker tries the other workers' deques.
pub fn steal_order(worker_id: usize, n: usize) -> (r: Vec<usize>)
    requires
        worker_id < usize::MAX,
    ensures
        r@ == steal_order_spec(worker_id as nat, n as nat),
{
    let mut order: Vec<usize> = Vec::new();
    if n == 0 {
        proof {
            assert(Seq::new(0nat, |offset: int| victim_at(worker_id as nat, 0, offset as nat) as usize) =~= Seq::<usize>::empty());
            assert(steal_order_spec(worker_id as nat, 0) =~= Seq::<usize>::empty());
        }
        return order;
    }
    let start = (worker_id + 1) % n;
    let ghost all = Seq::new(n as nat, |offset: int| victim_at(worker_id as nat, n as nat, offset as nat) as usize);
    let mut offset: usize = 0;
    proof {
        assert(all.subrange(0, 0) =~= Seq::<usize>::empty());
        assert(all.subrange(0, 0).filter(other_than(worker_id as nat)) =~= Seq::<usize>::empty()) by {
            reveal(Seq::filter);
        }
    }
    while offset < n
        invariant
            n > 0,
            start == (worker_id + 1) % (n as int),
            start < n,
            offset <= n,
            all == Seq::new(n as nat, |o: int| victim_at(worker_id as nat, n as nat, o as nat) as usize),
            order@ == all.subrange(0, offset as int).filter(other_than(worker_id as nat)),
        decreases n - offset,
    {
        let victim = if offset < n - start { start + offset } else { offset - (n - start) };
        proof {
            assert(victim == (start + offset) % (n as int)) by {
                if offset < n - start {
                    vstd::arithmetic::div_mod::lemma_small_mod((start + offset) as nat, n as nat);
                } else {
                    vstd::arithmetic::div_mod::lemma_small_mod((start + offset - n) as nat, n as nat);
                    vstd::arithmetic::div_mod::lemma_mod_sub_multiples_vanish((start + offset) as int, n as int);
                }
            }
            assert(all[offset as int] == victim);
            assert(all.subrange(0, offset + 1) =~= all.subrange(0, offset as int).push(victim));
            all.subrange(0, offset as int).lemma_filter_push(victim, other_than(worker_id as nat));
        }
        if victim != worker_id {
            order.push(victim);
        }
        offset = offset + 1;
    }
    proof {
        assert(all.subrange(0, n as int) =~= all);
    }
    order
}

/// What one attempt to take work decides: a taken task ends the search;
/// an empty queue or a collision moves the search on to the next queue.
pub fn task_from_steal<T>(outcome: StealOutcome<T>) -> (r: Option<T>)
    ensures
        r == match outcome {
            StealOutcome::Success(task) => Some(task),
            StealOutcome::Empty => None,
            StealOutcome::Retry => None,
        },
{
    match outcome {
        StealOutcome::Success(task) => Some(task),
        StealOutcome::Empty => None,
        StealOutcome::Retry => None,
    }
}

/// Tries the other workers' deques once each, in steal order, and returns
/// the first task taken.  The ghost log lists the victims whose deques were
/// tried, in order: a prefix of the steal order, and all of it when no task
/// was taken.
pub fn steal_from_others<T>(worker_id: usize, stealers: &Vec<Stealer<T>>) -> (r: (Option<T>, Ghost<Seq<usize>>))
    requires
        worker_id < usize::MAX,
    ensures
        r.1@ == steal_order_spec(worker_id as nat, stealers@.len()).take(r.1@.len() as int),
        r.1@.len() <= steal_order_spec(worker_id as nat, stealers@.len()).len(),
        r.0 is None ==> r.1@.len() == steal_order_spec(worker_id as nat, stealers@.len()).len(),
        r.0 is Some ==> r.1@.len() > 0,
{
    let order = steal_order(worker_id, stealers.len());
    let ghost mut log: Seq<usize> = Seq::empty();
    let mut k: usize = 0;
    while k < order.len()
        invariant
            worker_id < usize::MAX,
            order@ == steal_order_spec(worker_id as nat, stealers@.len()),
            k <= order@.len(),
            log == order@.take(k as int),
        decreases order@.len() - k,
    {
        let victim = order[k];
        proof {
            lemma_steal_order_in_range(worker_id as nat, stealers@.len(), k as int);
            log = log.push(victim);
            assert(log =~= order@.take(k + 1));
        }
        match task_from_steal(stealer_steal(&stealers[victim])) {
            Some(task) => {
                return (Some(task), Ghost(log));
            },
            None => {},
        }
        k = k + 1;
    }
    proof {
        assert(order@.take(k as int) =~= order@);
    }
    (None, Ghost(log))
}

/// Every victim in the steal order is a worker index.
pub proof fn lemma_steal_order_in_range(worker_id: nat, n: nat, k: int)
    requires
        0 <= k < steal_order_spec(worker_id, n).len(),
    ensures
        steal_order_spec(worker_id, n)[k] < n,
        steal_order_spec(worker_id, n)[k] != worker_id,
{
    let all = Seq::new(n, |offset: int| victim_at(worker_id, n, offset as nat) as usize);
    let p = other_than(worker_id);
    let x = all.filter(p)[k];
    assert(all.filter(p).contains(x));
    all.lemma_filter_contains_rev(p, x);
    all.lemma_filter_pred(p, k);
    assert(forall|i: int| 0 <= i < all.len() ==> #[trigger] all[i] < n);
}

/// A place where a worker looks for a task.
pub enum Probe {
    /// Its own deque.
    Local,
    /// The shared queue, moving a batch into its own deque.
    Shared,
    /// The deque of another worker.
    Victim(usize),
}

/// The places `worker_id` looks in, in order: its own deque, the shared
/// queue, then the other workers' deques in steal order.
pub open spec fn probe_order(worker_id: nat, n: nat) -> Seq<Probe> {
    seq![Probe::Local, Probe::Shared] + steal_order_spec(worker_id, n).map_values(|v: usize| Probe::Victim(v))
}

/// Where a worker looks for its next task: its own deque first, then a
/// batch from the shared queue, then the other workers' deques.  The ghost
/// log lists the places looked in, in order: a prefix of `probe_order`
/// with at least the own deque, and all of it when no task was found.
pub fn next_task_with_worker<T>(worker_id: usize, worker: &Worker<T>, injector: &Injector<T>, stealers: &Vec<Stealer<T>>) -> (r: (Option<T>, Ghost<Seq<Probe>>))
    requires
        worker_id < usize::MAX,
    ensures
        r.1@.len() >= 1,
        r.1@.len() <= probe_order(worker_id as nat, stealers@.len()).len(),
        r.1@ == probe_order(worker_id as nat, stealers@.len()).take(r.1@.len() as int),
        r.0 is None ==> r.1@ == probe_order(worker_id as nat, stealers@.len()),
{
    let ghost all = probe_order(worker_id as nat, stealers@.len());
    let ghost others = steal_order_spec(worker_id as nat, stealers@.len());
    match worker_pop(worker) {
        Some(task) => {
            let ghost l = seq![Probe::Local];
            proof {
                assert(l =~= all.take(1));
            }
            return (Some(task), Ghost(l));
        },
        None => {},
    }
    match task_from_steal(injector_steal_batch_and_pop(injector, worker)) {
        Some(task) => {
            let ghost l = seq![Probe::Local, Probe::Shared];
            proof {
                assert(l =~= all.take(2));
            }
            return (Some(task), Ghost(l));
        },
        None => {},
    }
    let (found, victims) = steal_from_others(worker_id, stealers);
    let ghost log = seq![Probe::Local, Probe::Shared] + victims@.map_values(|v: usize| Probe::Victim(v));
    proof {
        assert(log =~= all.take(log.len() as int)) by {
            assert forall|i: int| 0 <= i < log.len() implies log[i] == all[i] by {
                if i >= 2 {
                    assert(victims@[i - 2] == others[i - 2]);
                }
            }
        }
        if found is None {
            assert(victims@ =~= others);
            assert(log =~= all);
        }
    }
    (found, Ghost(log))
}

/// A task scheduled from a worker thread goes to that worker's own deque
/// when no other worker was asked for; otherwise it goes to the shared queue.
pub fn push_to_local_deque(worker_hint: Option<usize>, local_worker: Option<usize>) -> (r: bool)
    ensures
        r == (local_worker is Some && (worker_hint is None || worker_hint == local_worker)),
{
    match local_worker {
        Some(id) => match worker_hint {
            None => true,
            Some(hint) => hint == id,
        },
        None => false,
    }
}

/// Schedules `task` from the current thread: onto the calling worker's own
/// deque (`local`, with that worker's index) when `push_to_local_deque`
/// allows it, and onto the shared queue otherwise.  Returns whether the task
/// went to the local deque.
pub fn enqueue_task<T>(
    task: T,
    worker_hint: Option<usize>,
    local: Option<(usize, &Worker<T>)>,
    injector: &Injector<T>,
) -> (to_local: bool)
    ensures
        to_local == match local {
            Some((id, _)) => worker_hint is None || worker_hint == Some(id),
            None => false,
        },
{
    match local {
        Some((id, worker)) => {
            if push_to_local_deque(worker_hint, Some(id)) {
                worker_push(worker, task);
                return true;
            }
            injector_push(injector, task);
            false
        },
        None => {
            injector_push(injector, task);
            false
        },
    }
}

} // verus!
