//! Repeated runs of one flow: a fixed number of times, or until a predicate
//! holds after a run.  The first failing run ends the repetition with its
//! error.

use vstd::prelude::*;
use crate::error::FlowError;

verus! {

/// How often a flow is run.
#[derive(Clone, Copy, Debug, PartialEq, Eq, Structural)]
pub enum RepeatPolicy {
    /// Exactly this many successful runs.
    Times(usize),
    /// Until the predicate holds after a successful run.
    Until,
}

/// What the driver of a repetition does next.
pub enum RepeatAction {
    /// Start another run of the flow.
    Run,
    /// Evaluate the predicate (after a successful run of `Until`).
    AskPredicate,
    /// Report this result; the repetition is over.
    Finish(Result<(), FlowError>),
}

/// What `after_run` of a `Times(n)` repetition does after a run that ended
/// with `outcome`, with `completed` runs counted before: the count after it,
/// and the next action.
pub open spec fn times_after_run(n: nat, completed: nat, outcome: Result<(), FlowError>) -> (nat, RepeatAction) {
    match outcome {
        Err(e) => (completed, RepeatAction::Finish(Err(e))),
        Ok(()) => {
            let c = if completed < n { completed + 1 } else { n };
            (c, if c == n { RepeatAction::Finish(Ok(())) } else { RepeatAction::Run })
        },
    }
}

/// A driver loop over a `Times(n)` repetition with `completed` runs counted,
/// whose runs end with `outcomes` in turn: how many runs it starts, and the
/// result it finishes with (it starts no run once the count is reached, and
/// stops at the first failure).
pub open spec fn times_loop(n: nat, completed: nat, outcomes: Seq<Result<(), FlowError>>) -> (nat, Result<(), FlowError>)
    decreases outcomes.len(),
{
    if completed >= n {
        (0, Ok(()))
    } else if outcomes.len() == 0 {
        (0, Ok(()))
    } else {
        let next = times_after_run(n, completed, outcomes[0]);
        match next.1 {
            RepeatAction::Finish(result) => (1, result),
            _ => {
                let rest = times_loop(n, next.0, outcomes.drop_first());
                (rest.0 + 1, rest.1)
            },
        }
    }
}

/// Law: a `Times(n)` repetition whose runs all succeed starts exactly `n`
/// runs, one after another, and finishes with `Ok` (with `n == 0`, at
/// once).
pub proof fn lemma_times_runs_n(n: nat, completed: nat, outcomes: Seq<Result<(), FlowError>>)
    requires
        completed <= n,
        outcomes.len() >= n - completed,
        forall|i: int| 0 <= i < outcomes.len() ==> #[trigger] outcomes[i] is Ok,
    ensures
        times_loop(n, completed, outcomes) == (((n - completed) as nat, Ok::<(), FlowError>(()))),
    decreases outcomes.len(),
{
    if completed < n {
        assert(outcomes[0] is Ok);
        if completed + 1 < n {
            lemma_times_runs_n(n, completed + 1, outcomes.drop_first());
        }
    }
}

/// Law: a `Times(n)` repetition whose run number `i + 1` is the first to
/// fail, before the count is reached, starts `i + 1` runs and finishes with
/// that run's error.
pub proof fn lemma_times_stops_at_failure(n: nat, completed: nat, outcomes: Seq<Result<(), FlowError>>, i: nat)
    requires
        completed + i < n,
        i < outcomes.len(),
        outcomes[i as int] is Err,
        forall|j: int| 0 <= j < i ==> #[trigger] outcomes[j] is Ok,
    ensures
        times_loop(n, completed, outcomes) == ((i + 1) as nat, outcomes[i as int]),
    decreases i,
{
    if i > 0 {
        assert(outcomes[0] is Ok);
        assert forall|j: int| 0 <= j < i - 1 implies #[trigger] outcomes.drop_first()[j] is Ok by {
            assert(outcomes.drop_first()[j] == outcomes[j + 1]);
        }
        lemma_times_stops_at_failure(n, completed + 1, outcomes.drop_first(), (i - 1) as nat);
    }
}

/// A driver loop over an `Until` repetition: the runs end with `outcomes`
/// and the predicate, asked after each successful run, answers `answers` in
/// turn.  How many runs it starts, how often it asks the predicate, and the
/// result it finishes with.
pub open spec fn until_loop(outcomes: Seq<Result<(), FlowError>>, answers: Seq<bool>) -> (nat, nat, Result<(), FlowError>)
    decreases outcomes.len(),
{
    if outcomes.len() == 0 || answers.len() == 0 {
        (0, 0, Ok(()))
    } else {
        match outcomes[0] {
            Err(e) => (1, 0, Err(e)),
            Ok(()) => if answers[0] {
                (1, 1, Ok(()))
            } else {
                let rest = until_loop(outcomes.drop_first(), answers.drop_first());
                (rest.0 + 1, rest.1 + 1, rest.2)
            },
        }
    }
}

/// Law: an `Until` repetition whose runs succeed and whose predicate first
/// holds at its `m`-th answer starts `m` runs, asks the predicate `m` times
/// (once after each run), and finishes with `Ok`.
pub proof fn lemma_until_runs_until_predicate(outcomes: Seq<Result<(), FlowError>>, answers: Seq<bool>, m: nat)
    requires
        1 <= m <= answers.len(),
        m <= outcomes.len(),
        answers[m - 1],
        forall|j: int| 0 <= j < m - 1 ==> !#[trigger] answers[j],
        forall|j: int| 0 <= j < m ==> #[trigger] outcomes[j] is Ok,
    ensures
        until_loop(outcomes, answers) == ((m, m, Ok::<(), FlowError>(()))),
    decreases m,
{
    assert(outcomes[0] is Ok);
    if m > 1 {
        assert(!answers[0]);
        assert forall|j: int| 0 <= j < m - 2 implies !#[trigger] answers.drop_first()[j] by {
            assert(answers.drop_first()[j] == answers[j + 1]);
        }
        assert forall|j: int| 0 <= j < m - 1 implies #[trigger] outcomes.drop_first()[j] is Ok by {
            assert(outcomes.drop_first()[j] == outcomes[j + 1]);
        }
        lemma_until_runs_until_predicate(outcomes.drop_first(), answers.drop_first(), (m - 1) as nat);
    }
}

/// A repetition of runs: its policy and how many runs succeeded so far.
pub struct RunRepeater {
    policy: RepeatPolicy,
    completed: usize,
}

impl RunRepeater {
    pub closed spec fn spec_policy(&self) -> RepeatPolicy {
        self.policy
    }

    pub closed spec fn spec_completed(&self) -> nat {
        self.completed as nat
    }

    /// The repetition stays within its count.
    #[verifier::type_invariant]
    spec fn within_count(&self) -> bool {
        match self.policy {
            RepeatPolicy::Times(n) => self.completed <= n,
            RepeatPolicy::Until => self.completed == 0,
        }
    }

    pub fn new(policy: RepeatPolicy) -> (r: Self)
        ensures
            r.spec_policy() == policy,
            r.spec_completed() == 0,
    {
        RunRepeater { policy, completed: 0 }
    }

    /// The first step: run, unless zero runs were asked for.
    pub fn start(&self) -> (r: RepeatAction)
        ensures
            r matches RepeatAction::Finish(Ok(())) <==> (self.spec_policy() matches RepeatPolicy::Times(n)
                && self.spec_completed() == n),
            !(r matches RepeatAction::Finish(Ok(()))) ==> r is Run,
    {
        proof {
            use_type_invariant(self);
        }
        match self.policy {
            RepeatPolicy::Times(n) => {
                if self.completed == n {
                    RepeatAction::Finish(Ok(()))
                } else {
                    RepeatAction::Run
                }
            },
            RepeatPolicy::Until => RepeatAction::Run,
        }
    }

    /// A run ended with `outcome`: a failure ends the repetition with it; a
    /// success counts (up to the number asked for), and then either the last
    /// of `Times(n)` runs finishes, another run starts, or (for `Until`) the
    /// predicate is asked.
    pub fn after_run(&mut self, outcome: Result<(), FlowError>) -> (r: RepeatAction)
        ensures
            final(self).spec_policy() == old(self).spec_policy(),
            match outcome {
                Err(e) => r matches RepeatAction::Finish(Err(f)) && f == e
                    && final(self).spec_completed() == old(self).spec_completed(),
                Ok(()) => match old(self).spec_policy() {
                    RepeatPolicy::Times(n) => {
                        &&& final(self).spec_completed() == (if old(self).spec_completed() < n {
                            old(self).spec_completed() + 1
                        } else {
                            n as nat
                        })
                        &&& (final(self).spec_completed() == n ==> r matches RepeatAction::Finish(Ok(())))
                        &&& (final(self).spec_completed() < n ==> r is Run)
                    },
                    RepeatPolicy::Until => r is AskPredicate && final(self).spec_completed() == 0,
                },
            },
            old(self).spec_policy() matches RepeatPolicy::Times(n)
                ==> (final(self).spec_completed(), r) == times_after_run(n as nat, old(self).spec_completed(), outcome),
    {
        proof {
            use_type_invariant(&*self);
        }
        match outcome {
            Err(e) => RepeatAction::Finish(Err(e)),
            Ok(()) => match self.policy {
                RepeatPolicy::Times(n) => {
                    if self.completed < n {
                        self.completed = self.completed + 1;
                    }
                    if self.completed == n {
                        RepeatAction::Finish(Ok(()))
                    } else {
                        RepeatAction::Run
                    }
                },
                RepeatPolicy::Until => RepeatAction::AskPredicate,
            },
        }
    }

    /// The predicate of `Until` answered: it holding ends the repetition
    /// successfully, otherwise the flow runs again.
    pub fn after_predicate(&self, holds: bool) -> (r: RepeatAction)
        ensures
            holds ==> r matches RepeatAction::Finish(Ok(())),
            !holds ==> r is Run,
    {
        if holds {
            RepeatAction::Finish(Ok(()))
        } else {
            RepeatAction::Run
        }
    }
}

} // verus!
