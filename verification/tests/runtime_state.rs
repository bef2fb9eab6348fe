use rustflow::queue::{task_from_steal, StealOutcome};
use rustflow::repeat::{RepeatAction, RepeatPolicy, RunRepeater};
use rustflow::backoff::{Snooze, WaitBackoff};
use rustflow::parking::{wake_one, CommitOutcome, ParkPhase, Parker};
use rustflow::queue::{enqueue_task, push_to_local_deque, steal_from_others, steal_order, next_task_with_worker, WorkQueues};
use rustflow::run::{condition_targets, InlineRun, TaskOutcome};
use rustflow::status::{AsyncHandle, JoinScope, RunHandle, Semaphore};
use rustflow::trace::TraceObserver;
use rustflow::{FlowError, FlowGraph, FlowTaskKind, TaskId};

#[test]
fn run_handle_keeps_the_first_result_and_refuses_late_cancel() {
    let mut handle = RunHandle::pending();
    assert!(!handle.is_finished());
    assert!(handle.cancel());
    assert!(handle.is_cancelled());
    assert!(handle.complete(Err(FlowError::plain("boom"))));
    assert!(!handle.complete(Ok(())));
    assert!(handle.is_finished());
    assert!(!handle.cancel());
    match handle.wait() {
        Err(e) => assert_eq!(e.message(), "boom"),
        Ok(()) => panic!("the first result is kept"),
    }
}

#[test]
fn async_task_returns_a_value() {
    let mut handle: AsyncHandle<u32> = AsyncHandle::new(RunHandle::pending());
    handle.store(42);
    assert!(handle.complete(Ok(())));
    assert!(handle.is_finished());
    assert_eq!(handle.wait().ok(), Some(42));
}

#[test]
fn async_handle_without_value_reports_an_error() {
    let mut handle: AsyncHandle<u32> = AsyncHandle::new(RunHandle::pending());
    handle.complete(Ok(()));
    match handle.wait() {
        Err(e) => assert_eq!(e.message(), "async task completed without producing a value"),
        Ok(_) => panic!("no value was stored"),
    }
}

#[test]
fn join_scope_reports_a_failed_child_once() {
    let mut scope = JoinScope::new();
    assert!(scope.add_child());
    assert!(!scope.add_child());
    assert!(!scope.finish_child(true));
    assert!(scope.finish_child(false));
    assert!(scope.is_idle());
    let error = scope.take_error().expect("a child failed");
    assert_eq!(error.message(), "runtime child task failed");
    assert!(scope.take_error().is_none());
}

#[test]
fn semaphore_limits_holders_and_wakes_waiters() {
    let mut semaphore: Semaphore<u32> = Semaphore::new(1);
    assert!(semaphore.try_acquire_or_wait(1));
    assert_eq!(semaphore.value(), 0);
    assert!(!semaphore.try_acquire_or_wait(2));
    let mut woken = Vec::new();
    semaphore.release(&mut woken);
    assert_eq!(woken, vec![2]);
    assert_eq!(semaphore.value(), 1);
    assert_eq!(semaphore.max_value(), 1);
}

#[test]
fn inline_run_schedules_successors_when_ready() {
    let mut graph = FlowGraph::new();
    let a = graph.emplace(FlowTaskKind::Static);
    let b = graph.emplace(FlowTaskKind::Static);
    let c = graph.emplace(FlowTaskKind::Static);
    graph.add_edge(a, c);
    graph.add_edge(b, c);
    let snapshot = graph.snapshot();
    let mut run = InlineRun::new(&snapshot);
    assert_eq!(run.outstanding(), 2);
    let first = run.next_task(&snapshot).unwrap();
    assert_eq!(first, 0);
    run.complete(&snapshot, first, &TaskOutcome::Done);
    assert_eq!(run.outstanding(), 1);
    let second = run.next_task(&snapshot).unwrap();
    assert_eq!(second, 1);
    run.complete(&snapshot, second, &TaskOutcome::Done);
    assert_eq!(run.next_task(&snapshot), Some(2));
    run.complete(&snapshot, 2, &TaskOutcome::Done);
    assert_eq!(run.next_task(&snapshot), None);
    assert_eq!(TaskId(2).index(), 2);
}

#[test]
fn inline_run_condition_selects_one_successor() {
    let mut graph = FlowGraph::new();
    let cond = graph.emplace(FlowTaskKind::Condition);
    let left = graph.emplace(FlowTaskKind::Static);
    let right = graph.emplace(FlowTaskKind::Static);
    graph.add_edge(cond, left);
    graph.add_edge(cond, right);
    let snapshot = graph.snapshot();
    let mut run = InlineRun::new(&snapshot);
    let t = run.next_task(&snapshot).unwrap();
    run.complete(&snapshot, t, &TaskOutcome::Selected(vec![1]));
    assert_eq!(run.next_task(&snapshot), Some(2));
    assert_eq!(run.next_task(&snapshot), None);
}

#[test]
fn trace_observer_clear_discards_previous_spans() {
    let mut observer = TraceObserver::new(0);
    observer.set_up(2, 0);
    observer.task_started(0, TaskId(0), Some("once"), 10);
    observer.task_finished(0, TaskId(0), Some("once"), 20);

    assert_eq!(observer.num_tasks(), 1);

    observer.clear(30);

    assert_eq!(observer.num_tasks(), 0);
    assert_eq!(observer.dump().trim(), "[]");
}

#[test]
fn steal_order_visits_every_other_worker_once() {
    assert_eq!(steal_order(1, 4), vec![2, 3, 0]);
    assert_eq!(steal_order(3, 4), vec![0, 1, 2]);
    assert_eq!(steal_order(0, 1), Vec::<usize>::new());
    assert_eq!(steal_order(0, 0), Vec::<usize>::new());
}

#[test]
fn work_queues_hand_out_local_then_shared_then_stolen_work() {
    let queues: WorkQueues<u32> = WorkQueues::new(2);
    assert_eq!(queues.workers.len(), 2);
    assert_eq!(queues.stealers.len(), 2);
    assert!(enqueue_task(7, None, Some((0, &queues.workers[0])), &queues.injector));
    assert_eq!(next_task_with_worker(0, &queues.workers[0], &queues.injector, &queues.stealers).0, Some(7));
    assert!(!enqueue_task(8, Some(1), Some((0, &queues.workers[0])), &queues.injector));
    assert_eq!(next_task_with_worker(0, &queues.workers[0], &queues.injector, &queues.stealers).0, Some(8));
    assert!(enqueue_task(9, Some(1), Some((1, &queues.workers[1])), &queues.injector));
    assert_eq!(steal_from_others(0, &queues.stealers).0, Some(9));
    assert_eq!(next_task_with_worker(0, &queues.workers[0], &queues.injector, &queues.stealers).0, None);
    assert!(!enqueue_task(10, None, None, &queues.injector));
    assert_eq!(next_task_with_worker(1, &queues.workers[1], &queues.injector, &queues.stealers).0, Some(10));
}

#[test]
fn local_deque_is_used_only_without_a_foreign_hint() {
    assert!(push_to_local_deque(None, Some(1)));
    assert!(push_to_local_deque(Some(1), Some(1)));
    assert!(!push_to_local_deque(Some(0), Some(1)));
    assert!(!push_to_local_deque(None, None));
}

#[test]
fn inline_run_order_of_a_diamond_is_topological() {
    let mut graph = FlowGraph::new();
    let a = graph.emplace(FlowTaskKind::Static);
    let b = graph.emplace(FlowTaskKind::Static);
    let c = graph.emplace(FlowTaskKind::Static);
    let d = graph.emplace(FlowTaskKind::Static);
    graph.add_edge(a, b);
    graph.add_edge(a, c);
    graph.add_edge(b, d);
    graph.add_edge(c, d);
    let snapshot = graph.snapshot();
    let order = rustflow::inline::inline_run_order(&snapshot);
    assert_eq!(order, vec![0, 1, 2, 3]);
}

#[test]
fn inline_run_order_follows_edges_against_creation_order() {
    let mut graph = FlowGraph::new();
    let last = graph.emplace(FlowTaskKind::Static);
    let middle = graph.emplace(FlowTaskKind::Static);
    let first = graph.emplace(FlowTaskKind::Static);
    let lone = graph.emplace(FlowTaskKind::Static);
    graph.add_edge(first, middle);
    graph.add_edge(middle, last);
    let snapshot = graph.snapshot();
    let order = rustflow::inline::inline_run_order(&snapshot);
    assert_eq!(order.len(), 4);
    let pos = |t: usize| order.iter().position(|&x| x == t).unwrap();
    assert!(pos(first.index()) < pos(middle.index()));
    assert!(pos(middle.index()) < pos(last.index()));
    assert!(order.contains(&lone.index()));
}

#[test]
fn parker_wake_between_prepare_and_commit_prevents_sleep() {
    let mut parker = Parker::new();
    let observed = parker.prepare_park();
    assert_eq!(parker.phase(), ParkPhase::Preparing);
    assert!(parker.wake());
    assert_eq!(parker.commit_park(observed, false), CommitOutcome::Resume { woken: true });
    assert_eq!(parker.phase(), ParkPhase::Running);
}

#[test]
fn parker_sleeps_until_woken() {
    let mut parker = Parker::new();
    assert!(!parker.wake());
    let observed = parker.prepare_park();
    assert_eq!(parker.commit_park(observed, false), CommitOutcome::Sleep);
    assert_eq!(parker.phase(), ParkPhase::Parked);
    assert!(parker.keeps_sleeping(observed, false));
    assert!(!parker.keeps_sleeping(observed, true));
    assert!(parker.wake());
    assert!(!parker.keeps_sleeping(observed, false));
    assert!(parker.resume(observed, false));
    assert_eq!(parker.phase(), ParkPhase::Running);
}

#[test]
fn parker_commit_during_shutdown_does_not_sleep() {
    let mut parker = Parker::new();
    let observed = parker.prepare_park();
    assert_eq!(parker.commit_park(observed, true), CommitOutcome::Resume { woken: false });
}

#[test]
fn wake_one_prefers_the_hint_then_the_first_waiting_worker() {
    let mut parkers: Vec<Parker> = (0..3).map(|_| Parker::new()).collect();
    assert_eq!(wake_one(&mut parkers, None), None);
    let _ = parkers[2].prepare_park();
    let _ = parkers[1].prepare_park();
    assert_eq!(wake_one(&mut parkers, Some(0)), None);
    assert_eq!(wake_one(&mut parkers, None), Some(1));
    assert_eq!(wake_one(&mut parkers, Some(2)), Some(2));
    assert_eq!(parkers[0].phase(), ParkPhase::Running);
}

#[test]
fn backoff_spins_then_yields_then_gives_up() {
    let mut backoff = WaitBackoff::new();
    for _ in 0..64 {
        assert_eq!(backoff.try_snooze(), Snooze::Spin);
    }
    for _ in 0..32 {
        assert_eq!(backoff.try_snooze(), Snooze::Yield);
    }
    assert_eq!(backoff.try_snooze(), Snooze::Exhausted);
    assert_eq!(backoff.try_snooze(), Snooze::Exhausted);
    let mut fresh = WaitBackoff::new();
    assert_eq!(fresh.try_snooze(), Snooze::Spin);
}

#[test]
fn repeated_runs_count_and_stop_on_errors() {
    let zero = RunRepeater::new(RepeatPolicy::Times(0));
    assert!(matches!(zero.start(), RepeatAction::Finish(Ok(()))));

    let mut twice = RunRepeater::new(RepeatPolicy::Times(2));
    assert!(matches!(twice.start(), RepeatAction::Run));
    assert!(matches!(twice.after_run(Ok(())), RepeatAction::Run));
    assert!(matches!(twice.after_run(Ok(())), RepeatAction::Finish(Ok(()))));

    let mut failing = RunRepeater::new(RepeatPolicy::Times(3));
    match failing.after_run(Err(FlowError::plain("boom"))) {
        RepeatAction::Finish(Err(e)) => assert_eq!(e.message(), "boom"),
        _ => panic!("a failed run ends the repetition"),
    }

    let mut until = RunRepeater::new(RepeatPolicy::Until);
    assert!(matches!(until.start(), RepeatAction::Run));
    assert!(matches!(until.after_run(Ok(())), RepeatAction::AskPredicate));
    assert!(matches!(until.after_predicate(false), RepeatAction::Run));
    assert!(matches!(until.after_predicate(true), RepeatAction::Finish(Ok(()))));
}

#[test]
fn steal_outcomes_decide_the_search() {
    assert_eq!(task_from_steal(StealOutcome::Success(5)), Some(5));
    assert_eq!(task_from_steal(StealOutcome::<u8>::Empty), None);
    assert_eq!(task_from_steal(StealOutcome::<u8>::Retry), None);
}

#[test]
fn inline_run_takes_a_scheduled_task_next() {
    let mut graph = FlowGraph::new();
    let a = graph.emplace(FlowTaskKind::Static);
    let b = graph.emplace(FlowTaskKind::Static);
    graph.add_edge(a, b);
    let snapshot = graph.snapshot();
    let mut run = InlineRun::new(&snapshot);
    assert_eq!(run.num_scheduled(), 1);
    run.schedule(&snapshot, 1);
    assert_eq!(run.outstanding(), 2);
    assert_eq!(run.next_task(&snapshot), Some(0));
    assert_eq!(run.next_task(&snapshot), Some(1));
    assert_eq!(run.next_task(&snapshot), None);
}

#[test]
fn run_handle_keeps_the_first_result() {
    let mut handle = RunHandle::pending();
    assert!(handle.complete(Err(FlowError::plain("first"))));
    assert!(!handle.complete(Ok(())));
    assert!(handle.is_finished());
    assert_eq!(handle.wait().unwrap_err().message(), "first");
    assert_eq!(handle.wait().unwrap_err().message(), "first");
}

/// Drives a repetition as a runner does: runs while asked, answering the
/// predicate from `answers`; returns the runs made and the predicate calls.
fn drive(policy: RepeatPolicy, answers: &[bool]) -> (usize, usize) {
    let mut repeater = RunRepeater::new(policy);
    let (mut runs, mut asked) = (0usize, 0usize);
    let mut action = repeater.start();
    loop {
        match action {
            RepeatAction::Run => {
                runs += 1;
                action = repeater.after_run(Ok(()));
            }
            RepeatAction::AskPredicate => {
                let holds = answers[asked];
                asked += 1;
                action = repeater.after_predicate(holds);
            }
            RepeatAction::Finish(result) => {
                assert!(result.is_ok());
                return (runs, asked);
            }
        }
    }
}

#[test]
fn repetition_loops_run_the_asked_number_of_times() {
    assert_eq!(drive(RepeatPolicy::Times(0), &[]), (0, 0));
    assert_eq!(drive(RepeatPolicy::Times(5), &[]), (5, 0));
    assert_eq!(drive(RepeatPolicy::Until, &[false, false, true]), (3, 3));
    assert_eq!(drive(RepeatPolicy::Until, &[true]), (1, 1));
}

#[test]
fn a_condition_selects_exactly_the_named_successors() {
    let successors = vec![7, 3, 9];
    assert_eq!(condition_targets(&successors, &vec![1]), vec![3]);
    assert_eq!(condition_targets(&successors, &vec![5]), Vec::<usize>::new());
    assert_eq!(condition_targets(&successors, &vec![2, 0, 4]), vec![9, 7]);
    assert_eq!(condition_targets(&successors, &vec![]), Vec::<usize>::new());
}
