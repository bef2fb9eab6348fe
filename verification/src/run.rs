use vstd::prelude::*;
use crate::snapshot::{GraphSnapshot, snapshot_wf};

verus! {

/// What a finished task hands back to the scheduler: nothing (its strong
/// successors are notified), or the successor positions a condition selected.
pub enum TaskOutcome {
    Done,
    Selected(Vec<usize>),
}

/// The successors that a condition task's choices name, in the order chosen;
/// positions past the end of the successor list are ignored.
pub open spec fn spec_condition_targets(successors: Seq<usize>, selected: Seq<usize>) -> Seq<usize>
    decreases selected.len(),
{
    if selected.len() == 0 {
        Seq::empty()
    } else {
        let rest = spec_condition_targets(successors, selected.drop_last());
        let p = selected.last();
        if p < successors.len() {
            rest.push(successors[p as int])
        } else {
            rest
        }
    }
}

/// Law: a condition task that returns the one position `k` schedules
/// exactly its successor at `k`, once, when `k` names one (the condition
/// itself too, which makes it run again), and nothing when `k` is past the
/// end; no other successor is touched (`complete` appends exactly these
/// targets to the queue).
pub proof fn lemma_condition_selects_one(successors: Seq<usize>, k: usize)
    ensures
        spec_condition_targets(successors, seq![k]) == (if k < successors.len() {
            seq![successors[k as int]]
        } else {
            Seq::<usize>::empty()
        }),
{
    let sel = seq![k];
    assert(sel.drop_last() =~= Seq::<usize>::empty());
    assert(sel.last() == k);
    assert(spec_condition_targets(successors, Seq::<usize>::empty()) == Seq::<usize>::empty());
    if k < successors.len() {
        assert(Seq::<usize>::empty().push(successors[k as int]) =~= seq![successors[k as int]]);
    }
}

/// Maps the positions a condition task returned to the successors it selects.
pub fn condition_targets(successors: &Vec<usize>, selected: &Vec<usize>) -> (r: Vec<usize>)
    ensures
        r@ == spec_condition_targets(successors@, selected@),
{
    let mut r: Vec<usize> = Vec::new();
    let mut i: usize = 0;
    while i < selected.len()
        invariant
            i <= selected@.len(),
            r@ == spec_condition_targets(successors@, selected@.subrange(0, i as int)),
        decreases selected@.len() - i,
    {
        let p = selected[i];
        if p < successors.len() {
            r.push(successors[p]);
        }
        proof {
            let t = selected@.subrange(0, i + 1);
            assert(t.drop_last() =~= selected@.subrange(0, i as int));
        }
        i = i + 1;
    }
    proof {
        assert(selected@.subrange(0, selected@.len() as int) =~= selected@);
    }
    r
}

/// The successors among the first `k` of `succ` whose waiting count was 1, so that
/// this completion makes them ready.
pub open spec fn spec_ready(pending: Seq<usize>, succ: Seq<usize>, k: int) -> Seq<usize>
    decreases k,
{
    if k <= 0 {
        Seq::empty()
    } else if pending[succ[k - 1] as int] == 1 {
        spec_ready(pending, succ, k - 1).push(succ[k - 1])
    } else {
        spec_ready(pending, succ, k - 1)
    }
}

/// One less, wrapping at zero, as an atomic counter behaves.
pub open spec fn dec_wrapping(x: usize) -> usize {
    if x == 0 { usize::MAX } else { (x - 1) as usize }
}

/// The waiting counts after the successors among the first `k` of `succ` were
/// each notified once.
pub open spec fn spec_notified(pending: Seq<usize>, succ: Seq<usize>, k: int) -> Seq<usize>
    decreases k,
{
    if k <= 0 {
        pending
    } else {
        let prev = spec_notified(pending, succ, k - 1);
        prev.update(succ[k - 1] as int, dec_wrapping(prev[succ[k - 1] as int]))
    }
}

/// The state of one run of a snapshot driven on the current thread: the tasks
/// scheduled so far in order, how many of them were taken, and the number of
/// strong dependencies each task still waits for.
pub struct InlineRun {
    queue: Vec<usize>,
    head: usize,
    pending: Vec<usize>,
    outstanding: usize,
}

impl InlineRun {
    pub closed spec fn spec_queue(&self) -> Seq<usize> {
        self.queue@
    }

    pub closed spec fn spec_head(&self) -> int {
        self.head as int
    }

    pub closed spec fn spec_pending(&self) -> Seq<usize> {
        self.pending@
    }

    pub closed spec fn spec_outstanding(&self) -> int {
        self.outstanding as int
    }

    /// The run's bookkeeping fits the snapshot: scheduled positions are tasks of
    /// it, and the number of outstanding tasks is the number scheduled but not
    /// yet taken.
    pub closed spec fn wf(&self, s: GraphSnapshot) -> bool {
        &&& snapshot_wf(s)
        &&& self.pending@.len() == s.nodes@.len()
        &&& self.head <= self.queue@.len()
        &&& self.outstanding == self.queue@.len() - self.head
        &&& forall|k: int| 0 <= k < self.queue@.len() ==> #[trigger] self.queue@[k] < s.nodes@.len()
    }

    /// Starts a run: the roots are scheduled, every task waits for its strong
    /// predecessors.
    pub fn new(s: &GraphSnapshot) -> (r: Self)
        requires
            snapshot_wf(*s),
        ensures
            r.wf(*s),
            r.spec_queue() == s.roots@,
            r.spec_head() == 0,
            r.spec_pending() == s.initial_pending@,
            r.spec_outstanding() == s.roots@.len(),
    {
        let mut queue: Vec<usize> = Vec::new();
        let mut i: usize = 0;
        while i < s.roots.len()
            invariant
                i <= s.roots@.len(),
                queue@ == s.roots@.subrange(0, i as int),
            decreases s.roots@.len() - i,
        {
            queue.push(s.roots[i]);
            proof {
                assert(queue@ =~= s.roots@.subrange(0, i + 1));
            }
            i = i + 1;
        }
        let mut pending: Vec<usize> = Vec::new();
        let mut k: usize = 0;
        while k < s.initial_pending.len()
            invariant
                k <= s.initial_pending@.len(),
                pending@ == s.initial_pending@.subrange(0, k as int),
            decreases s.initial_pending@.len() - k,
        {
            pending.push(s.initial_pending[k]);
            proof {
                assert(pending@ =~= s.initial_pending@.subrange(0, k + 1));
            }
            k = k + 1;
        }
        proof {
            assert(queue@ =~= s.roots@);
            assert(pending@ =~= s.initial_pending@);
        }
        InlineRun { queue, head: 0, pending, outstanding: s.roots.len() }
    }

    /// The number of tasks scheduled but not yet taken.
    pub fn outstanding(&self) -> (r: usize)
        ensures
            r == self.spec_outstanding(),
    {
        self.outstanding
    }

    /// Takes the next scheduled task, in the order tasks were scheduled.
    pub fn next_task(&mut self, s: &GraphSnapshot) -> (r: Option<usize>)
        requires
            old(self).wf(*s),
        ensures
            final(self).wf(*s),
            final(self).spec_queue() == old(self).spec_queue(),
            final(self).spec_pending() == old(self).spec_pending(),
            old(self).spec_head() < old(self).spec_queue().len() ==> {
                &&& r == Some(old(self).spec_queue()[old(self).spec_head()])
                &&& final(self).spec_head() == old(self).spec_head() + 1
            },
            old(self).spec_head() == old(self).spec_queue().len() ==> {
                &&& r is None
                &&& final(self).spec_head() == old(self).spec_head()
            },
    {
        if self.head < self.queue.len() {
            let t = self.queue[self.head];
            self.head = self.head + 1;
            self.outstanding = self.outstanding - 1;
            Some(t)
        } else {
            None
        }
    }

    /// Schedules `task` directly (a runtime task asked for it), whatever it
    /// still waits for; it is taken after the tasks scheduled before it.
    pub fn schedule(&mut self, s: &GraphSnapshot, task: usize)
        requires
            old(self).wf(*s),
            task < s.nodes@.len(),
            old(self).spec_queue().len() < usize::MAX,
        ensures
            final(self).wf(*s),
            final(self).spec_queue() == old(self).spec_queue().push(task),
            final(self).spec_head() == old(self).spec_head(),
            final(self).spec_pending() == old(self).spec_pending(),
            final(self).spec_outstanding() == old(self).spec_outstanding() + 1,
    {
        self.queue.push(task);
        self.outstanding = self.outstanding + 1;
    }

    /// How many tasks were scheduled so far.
    pub fn num_scheduled(&self) -> (r: usize)
        ensures
            r == self.spec_queue().len(),
    {
        self.queue.len()
    }

    /// A taken task ends without notifying its successors (the run was
    /// cancelled): its waiting count is restored.
    pub fn skip(&mut self, s: &GraphSnapshot, task: usize)
        requires
            old(self).wf(*s),
            task < s.nodes@.len(),
        ensures
            final(self).wf(*s),
            final(self).spec_queue() == old(self).spec_queue(),
            final(self).spec_head() == old(self).spec_head(),
            final(self).spec_pending() == old(self).spec_pending().update(task as int, s.initial_pending@[task as int]),
    {
        self.pending.set(task, s.initial_pending[task]);
    }

    /// A taken task finished.  A condition task schedules the successors it
    /// selected; any other task notifies each successor, and schedules those
    /// that no longer wait.  Then the task's own waiting count is restored, so
    /// it can run again in a later round.
    pub fn complete(&mut self, s: &GraphSnapshot, task: usize, outcome: &TaskOutcome)
        requires
            old(self).wf(*s),
            task < s.nodes@.len(),
        ensures
            final(self).wf(*s),
            final(self).spec_head() == old(self).spec_head(),
            ({
                let node = s.nodes@[task as int];
                match outcome {
                    TaskOutcome::Selected(sel) => if node.kind.spec_is_condition() {
                        &&& final(self).spec_queue() == old(self).spec_queue() + spec_condition_targets(node.successors@, sel@)
                        &&& final(self).spec_pending() == old(self).spec_pending().update(task as int, s.initial_pending@[task as int])
                    } else {
                        &&& final(self).spec_queue() == old(self).spec_queue() + spec_ready(old(self).spec_pending(), node.successors@, node.successors@.len() as int)
                        &&& final(self).spec_pending() == spec_notified(old(self).spec_pending(), node.successors@, node.successors@.len() as int).update(task as int, s.initial_pending@[task as int])
                    },
                    TaskOutcome::Done => if node.kind.spec_is_condition() {
                        &&& final(self).spec_queue() == old(self).spec_queue()
                        &&& final(self).spec_pending() == old(self).spec_pending().update(task as int, s.initial_pending@[task as int])
                    } else {
                        &&& final(self).spec_queue() == old(self).spec_queue() + spec_ready(old(self).spec_pending(), node.successors@, node.successors@.len() as int)
                        &&& final(self).spec_pending() == spec_notified(old(self).spec_pending(), node.successors@, node.successors@.len() as int).update(task as int, s.initial_pending@[task as int])
                    },
                }
            }),
    {
        let node = &s.nodes[task];
        proof {
            assert(snapshot_wf(*s));
            assert(s.nodes@[task as int] == *node);
        }
        if node.kind.is_condition() {
            match outcome {
                TaskOutcome::Selected(sel) => {
                    let targets = condition_targets(&node.successors, sel);
                    proof {
                        lemma_condition_targets_in(node.successors@, sel@, s.nodes@.len() as int);
                    }
                    self.append(s, &targets);
                },
                TaskOutcome::Done => {},
            }
        } else {
            let ghost p0 = self.pending@;
            let ghost q0 = self.queue@;
            let ghost h0 = self.head;
            let mut j: usize = 0;
            while j < node.successors.len()
                invariant
                    j <= node.successors@.len(),
                    snapshot_wf(*s),
                    task < s.nodes@.len(),
                    *node == s.nodes@[task as int],
                    forall|k: int| 0 <= k < node.successors@.len() ==> #[trigger] node.successors@[k] < s.nodes@.len(),
                    forall|a: int, b: int| 0 <= a < b < node.successors@.len() ==> #[trigger] node.successors@[a] != #[trigger] node.successors@[b],
                    p0.len() == s.nodes@.len(),
                    self.pending@ == spec_notified(p0, node.successors@, j as int),
                    self.queue@ == q0 + spec_ready(p0, node.successors@, j as int),
                    self.head <= q0.len(),
                    self.head == h0,
                    self.outstanding == self.queue@.len() - self.head,
                    forall|k: int| 0 <= k < self.queue@.len() ==> #[trigger] self.queue@[k] < s.nodes@.len(),
                decreases node.successors@.len() - j,
            {
                let succ = node.successors[j];
                proof {
                    lemma_notified_untouched(p0, node.successors@, j as int, succ as int);
                    lemma_notified_len(p0, node.successors@, j as int);
                }
                let previous = self.pending[succ];
                let next = if previous == 0 { usize::MAX } else { previous - 1 };
                self.pending.set(succ, next);
                if previous == 1 {
                    self.queue.push(succ);
                    self.outstanding = self.queue.len() - self.head;
                }
                proof {
                    assert(self.queue@ =~= q0 + spec_ready(p0, node.successors@, j + 1));
                }
                j = j + 1;
            }
            proof {
                lemma_notified_len(p0, node.successors@, node.successors@.len() as int);
            }
        }
        self.pending.set(task, s.initial_pending[task]);
    }

    fn append(&mut self, s: &GraphSnapshot, targets: &Vec<usize>)
        requires
            old(self).wf(*s),
            forall|k: int| 0 <= k < targets@.len() ==> #[trigger] targets@[k] < s.nodes@.len(),
        ensures
            final(self).wf(*s),
            final(self).spec_queue() == old(self).spec_queue() + targets@,
            final(self).spec_head() == old(self).spec_head(),
            final(self).spec_pending() == old(self).spec_pending(),
    {
        let ghost q0 = self.queue@;
        let ghost h0 = self.head;
        let ghost p0 = self.pending@;
        let mut i: usize = 0;
        while i < targets.len()
            invariant
                i <= targets@.len(),
                self.head == h0,
                self.pending@ == p0,
                snapshot_wf(*s),
                self.pending@.len() == s.nodes@.len(),
                forall|k: int| 0 <= k < targets@.len() ==> #[trigger] targets@[k] < s.nodes@.len(),
                self.queue@ == q0 + targets@.subrange(0, i as int),
                self.head <= q0.len(),
                self.outstanding == self.queue@.len() - self.head,
                forall|k: int| 0 <= k < self.queue@.len() ==> #[trigger] self.queue@[k] < s.nodes@.len(),
            decreases targets@.len() - i,
        {
            self.queue.push(targets[i]);
            self.outstanding = self.queue.len() - self.head;
            proof {
                assert(self.queue@ =~= q0 + targets@.subrange(0, i + 1));
            }
            i = i + 1;
        }
        proof {
            assert(targets@.subrange(0, targets@.len() as int) =~= targets@);
        }
    }
}

proof fn lemma_condition_targets_in(successors: Seq<usize>, selected: Seq<usize>, n: int)
    requires
        forall|k: int| 0 <= k < successors.len() ==> #[trigger] successors[k] < n,
    ensures
        forall|k: int| 0 <= k < spec_condition_targets(successors, selected).len() ==> #[trigger] spec_condition_targets(successors, selected)[k] < n,
    decreases selected.len(),
{
    if selected.len() > 0 {
        lemma_condition_targets_in(successors, selected.drop_last(), n);
        let prev = spec_condition_targets(successors, selected.drop_last());
        let cur = spec_condition_targets(successors, selected);
        assert forall|k: int| 0 <= k < cur.len() implies #[trigger] cur[k] < n by {
            if k < prev.len() {
                assert(cur[k] == prev[k]);
            }
        }
    }
}

proof fn lemma_notified_untouched(pending: Seq<usize>, succ: Seq<usize>, j: int, x: int)
    requires
        0 <= j < succ.len(),
        succ[j] == x,
        forall|a: int, b: int| 0 <= a < b < succ.len() ==> #[trigger] succ[a] != #[trigger] succ[b],
        forall|k: int| 0 <= k < succ.len() ==> 0 <= #[trigger] succ[k] < pending.len(),
    ensures
        spec_notified(pending, succ, j)[x] == pending[x],
        spec_notified(pending, succ, j).len() == pending.len(),
    decreases j,
{
    if j > 0 {
        assert(succ[j - 1] != succ[j]);
        lemma_notified_untouched_at(pending, succ, j - 1, x);
    }
}

proof fn lemma_notified_untouched_at(pending: Seq<usize>, succ: Seq<usize>, j: int, x: int)
    requires
        0 <= j < succ.len(),
        forall|k: int| 0 <= k <= j ==> #[trigger] succ[k] != x,
        0 <= x < pending.len(),
        forall|k: int| 0 <= k < succ.len() ==> 0 <= #[trigger] succ[k] < pending.len(),
    ensures
        spec_notified(pending, succ, j + 1)[x] == pending[x],
        spec_notified(pending, succ, j + 1).len() == pending.len(),
    decreases j,
{
    lemma_notified_len(pending, succ, j);
    lemma_notified_len(pending, succ, j + 1);
    if j > 0 {
        lemma_notified_untouched_at(pending, succ, j - 1, x);
    }
    let prev = spec_notified(pending, succ, j);
    assert(spec_notified(pending, succ, j + 1) == prev.update(succ[j] as int, dec_wrapping(prev[succ[j] as int])));
    assert(prev[x] == pending[x]);
}

proof fn lemma_notified_len(pending: Seq<usize>, succ: Seq<usize>, j: int)
    requires
        0 <= j <= succ.len(),
        forall|k: int| 0 <= k < succ.len() ==> 0 <= #[trigger] succ[k] < pending.len(),
    ensures
        spec_notified(pending, succ, j).len() == pending.len(),
    decreases j,
{
    if j > 0 {
        lemma_notified_len(pending, succ, j - 1);
    }
}

} // verus!
