use vstd::prelude::*;

verus! {

/// Where a worker stands in putting itself to sleep.
#[derive(Clone, Copy, Debug, PartialEq, Eq, Structural)]
pub enum ParkPhase {
    Running,
    /// It found no work and announced that it may sleep.
    Preparing,
    Parked,
}

/// What a worker does when it tries to commit to sleeping.
#[derive(Clone, Copy, Debug, PartialEq, Eq, Structural)]
pub enum CommitOutcome {
    /// Nothing woke it since it prepared: it sleeps.
    Sleep,
    /// It keeps running; `woken` tells whether a wake-up is what stopped it.
    Resume { woken: bool },
}

/// The parking record of one worker: its phase and a wake-up counter that
/// every wake-up of a preparing or parked worker advances (wrapping).
pub struct Parker {
    phase: ParkPhase,
    epoch: u32,
}

/// A parking record as values.
pub struct ParkerView {
    pub phase: ParkPhase,
    pub epoch: u32,
}

impl View for Parker {
    type V = ParkerView;

    closed spec fn view(&self) -> ParkerView {
        ParkerView { phase: self.phase, epoch: self.epoch }
    }
}

/// The record after a wake-up: a preparing or parked worker gets the next
/// epoch, a running one is left alone.
pub open spec fn woken(p: ParkerView) -> ParkerView {
    if p.phase == ParkPhase::Running {
        p
    } else {
        ParkerView { phase: p.phase, epoch: (if p.epoch == u32::MAX { 0 } else { p.epoch + 1 }) as u32 }
    }
}

/// The record after `k` wake-ups.
pub open spec fn woken_times(p: ParkerView, k: nat) -> ParkerView
    decreases k,
{
    if k == 0 {
        p
    } else {
        woken(woken_times(p, (k - 1) as nat))
    }
}

/// Whether a worker that prepared at epoch `observed` sleeps when it commits.
pub open spec fn commits_to_sleep(p: ParkerView, observed: u64, shutdown: bool) -> bool {
    p.phase == ParkPhase::Preparing && p.epoch == observed as u32 && !shutdown
}

/// What committing returns.
pub open spec fn commit_outcome(p: ParkerView, observed: u64, shutdown: bool) -> CommitOutcome {
    if commits_to_sleep(p, observed, shutdown) {
        CommitOutcome::Sleep
    } else {
        CommitOutcome::Resume { woken: p.epoch != observed as u32 && !shutdown }
    }
}

impl Parker {
    pub fn new() -> (r: Self)
        ensures
            r@ == (ParkerView { phase: ParkPhase::Running, epoch: 0 }),
    {
        Parker { phase: ParkPhase::Running, epoch: 0 }
    }

    pub fn phase(&self) -> (r: ParkPhase)
        ensures
            r == self@.phase,
    {
        self.phase
    }

    /// Announces that the worker may sleep, and returns the epoch it saw.
    pub fn prepare_park(&mut self) -> (observed: u64)
        ensures
            final(self)@ == (ParkerView { phase: ParkPhase::Preparing, epoch: old(self)@.epoch }),
            observed == old(self)@.epoch,
    {
        self.phase = ParkPhase::Preparing;
        self.epoch as u64
    }

    /// The worker found work after all and keeps running.
    pub fn cancel_park(&mut self)
        ensures
            final(self)@ == (ParkerView { phase: ParkPhase::Running, epoch: old(self)@.epoch }),
    {
        self.phase = ParkPhase::Running;
    }

    /// Sleeps only if the worker is still preparing, nothing woke it since it
    /// saw `observed`, and the pool is not shutting down; otherwise it runs on.
    pub fn commit_park(&mut self, observed: u64, shutdown: bool) -> (r: CommitOutcome)
        ensures
            r == commit_outcome(old(self)@, observed, shutdown),
            final(self)@ == (ParkerView {
                phase: if r == CommitOutcome::Sleep { ParkPhase::Parked } else { ParkPhase::Running },
                epoch: old(self)@.epoch,
            }),
    {
        let observed = observed as u32;
        let current = self.epoch;
        if self.phase != ParkPhase::Preparing || current != observed || shutdown {
            self.phase = ParkPhase::Running;
            return CommitOutcome::Resume { woken: current != observed && !shutdown };
        }
        self.phase = ParkPhase::Parked;
        CommitOutcome::Sleep
    }

    /// Whether a parked worker that saw `observed` goes on sleeping.
    pub fn keeps_sleeping(&self, observed: u64, shutdown: bool) -> (r: bool)
        ensures
            r == (self@.epoch == observed as u32 && !shutdown),
    {
        self.epoch == observed as u32 && !shutdown
    }

    /// A parked worker runs again; the result tells whether a wake-up (rather
    /// than shutdown) ended its sleep.
    pub fn resume(&mut self, observed: u64, shutdown: bool) -> (woken: bool)
        ensures
            final(self)@ == (ParkerView { phase: ParkPhase::Running, epoch: old(self)@.epoch }),
            woken == (old(self)@.epoch != observed as u32 && !shutdown),
    {
        self.phase = ParkPhase::Running;
        self.epoch != observed as u32 && !shutdown
    }

    /// Wakes a preparing or parked worker by advancing its epoch; a running
    /// worker is left alone and `false` is returned.
    pub fn wake(&mut self) -> (r: bool)
        ensures
            final(self)@ == woken(old(self)@),
            r == (old(self)@.phase != ParkPhase::Running),
    {
        if self.phase != ParkPhase::Preparing && self.phase != ParkPhase::Parked {
            return false;
        }
        self.epoch = if self.epoch == u32::MAX { 0 } else { self.epoch + 1 };
        true
    }
}

/// Wakes the hinted worker, or else the first worker that accepts a wake-up;
/// returns the worker woken, if any.
pub fn wake_one(parkers: &mut Vec<Parker>, hint: Option<usize>) -> (r: Option<usize>)
    requires
        hint matches Some(t) ==> t < old(parkers)@.len(),
    ensures
        final(parkers)@.len() == old(parkers)@.len(),
        match hint {
            Some(t) => {
                &&& (r == if old(parkers)@[t as int]@.phase != ParkPhase::Running { Some(t) } else { None })
                &&& final(parkers)@ == old(parkers)@.update(t as int, final(parkers)@[t as int])
                &&& final(parkers)@[t as int]@ == woken(old(parkers)@[t as int]@)
            },
            None => match r {
                Some(w) => {
                    &&& w < old(parkers)@.len()
                    &&& old(parkers)@[w as int]@.phase != ParkPhase::Running
                    &&& forall|j: int| 0 <= j < w ==> (#[trigger] old(parkers)@[j])@.phase == ParkPhase::Running
                    &&& final(parkers)@[w as int]@ == woken(old(parkers)@[w as int]@)
                    &&& forall|j: int| 0 <= j < old(parkers)@.len() && j != w ==> #[trigger] final(parkers)@[j] == old(parkers)@[j]
                },
                None => {
                    &&& forall|j: int| 0 <= j < old(parkers)@.len() ==> (#[trigger] old(parkers)@[j])@.phase == ParkPhase::Running
                    &&& forall|j: int| 0 <= j < old(parkers)@.len() ==> #[trigger] final(parkers)@[j] == old(parkers)@[j]
                },
            },
        },
{
    match hint {
        Some(t) => {
            let mut p = parkers.remove(t);
            let accepted = p.wake();
            parkers.insert(t, p);
            if accepted { Some(t) } else { None }
        },
        None => {
            let mut i: usize = 0;
            while i < parkers.len()
                invariant
                    i <= parkers@.len(),
                    hint is None,
                    parkers@ == old(parkers)@,
                    forall|j: int| 0 <= j < i ==> (#[trigger] old(parkers)@[j])@.phase == ParkPhase::Running,
                decreases parkers@.len() - i,
            {
                if parkers[i].phase() != ParkPhase::Running {
                    let mut p = parkers.remove(i);
                    p.wake();
                    parkers.insert(i, p);
                    return Some(i);
                }
                i = i + 1;
            }
            None
        },
    }
}

/// A wake-up that reaches a worker between its announcement and its commit
/// keeps it from sleeping: after `k` wake-ups, fewer than `2^32`, the commit
/// sees another epoch than the one announced.
pub proof fn lemma_wake_before_commit_prevents_sleep(p: ParkerView, k: nat)
    requires
        1 <= k < 0x1_0000_0000,
    ensures
        ({
            let prepared = ParkerView { phase: ParkPhase::Preparing, epoch: p.epoch };
            let q = woken_times(prepared, k);
            &&& q.phase == ParkPhase::Preparing
            &&& !commits_to_sleep(q, p.epoch as u64, false)
            &&& commit_outcome(q, p.epoch as u64, false) == CommitOutcome::Resume { woken: true }
        }),
{
    let prepared = ParkerView { phase: ParkPhase::Preparing, epoch: p.epoch };
    lemma_woken_times_epoch(prepared, k);
    let q = woken_times(prepared, k);
    assert((p.epoch as u64) as u32 == p.epoch);
    assert(q.epoch != p.epoch) by {
        assert(q.epoch == (p.epoch + k) % 0x1_0000_0000);
        if p.epoch + k < 0x1_0000_0000 {
        } else {
            assert(p.epoch + k - 0x1_0000_0000 < p.epoch);
        }
    }
}

/// A worker that announced and was not woken sleeps when it commits, unless
/// the pool shuts down.
pub proof fn lemma_unwoken_commit_sleeps(p: ParkerView, shutdown: bool)
    ensures
        ({
            let prepared = ParkerView { phase: ParkPhase::Preparing, epoch: p.epoch };
            commit_outcome(prepared, p.epoch as u64, shutdown) == if shutdown {
                CommitOutcome::Resume { woken: false }
            } else {
                CommitOutcome::Sleep
            }
        }),
{
    assert((p.epoch as u64) as u32 == p.epoch);
}

proof fn lemma_woken_times_epoch(p: ParkerView, k: nat)
    requires
        p.phase != ParkPhase::Running,
    ensures
        woken_times(p, k).phase == p.phase,
        woken_times(p, k).epoch == (p.epoch + k) % 0x1_0000_0000,
    decreases k,
{
    if k > 0 {
        lemma_woken_times_epoch(p, (k - 1) as nat);
    }
}

} // verus!
