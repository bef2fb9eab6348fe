//! The backoff of a thread that waits for a condition: first it spins, then
//! it yields its time slice, then it gives up and blocks.

use vstd::prelude::*;

verus! {

/// How many times a waiting thread spins before it yields.
pub const BACKOFF_MAX_SPINS: u32 = 64;

/// How many times a waiting thread yields before it gives up.
pub const BACKOFF_MAX_YIELDS: u32 = 32;

/// What a waiting thread does next.
#[derive(PartialEq, Eq, Structural, Debug, Clone, Copy)]
pub enum Snooze {
    /// Spin once (a processor hint, no system call).
    Spin,
    /// Yield the time slice once.
    Yield,
    /// Stop spinning and yielding: block or do other work.
    Exhausted,
}

/// The count of spins and yields of one wait so far.
pub struct WaitBackoff {
    spins: u32,
    yields: u32,
}

impl View for WaitBackoff {
    type V = (nat, nat);

    closed spec fn view(&self) -> (nat, nat) {
        (self.spins as nat, self.yields as nat)
    }
}

/// The step taken from counts `(spins, yields)`.
pub open spec fn snooze_step(state: (nat, nat)) -> Snooze {
    if state.0 < BACKOFF_MAX_SPINS {
        Snooze::Spin
    } else if state.1 < BACKOFF_MAX_YIELDS {
        Snooze::Yield
    } else {
        Snooze::Exhausted
    }
}

/// The counts after the step taken from `state`.
pub open spec fn snooze_next(state: (nat, nat)) -> (nat, nat) {
    if state.0 < BACKOFF_MAX_SPINS {
        (state.0 + 1, state.1)
    } else if state.1 < BACKOFF_MAX_YIELDS {
        (state.0, state.1 + 1)
    } else {
        state
    }
}

/// The counts after `k` steps of a fresh wait.
pub open spec fn counts_after(k: nat) -> (nat, nat)
    decreases k,
{
    if k == 0 {
        (0, 0)
    } else {
        snooze_next(counts_after((k - 1) as nat))
    }
}

/// The counts of a wait are within their bounds.
pub open spec fn counts_wf(state: (nat, nat)) -> bool {
    state.0 <= BACKOFF_MAX_SPINS && state.1 <= BACKOFF_MAX_YIELDS && (state.1 > 0
        ==> state.0 == BACKOFF_MAX_SPINS)
}

impl WaitBackoff {
    #[verifier::type_invariant]
    spec fn within_bounds(self) -> bool {
        counts_wf(self@)
    }

    /// A fresh wait: nothing spun or yielded yet.
    pub fn new() -> (r: Self)
        ensures
            r@ == (0nat, 0nat),
    {
        WaitBackoff { spins: 0, yields: 0 }
    }

    /// The next step of the wait: a spin while fewer than
    /// `BACKOFF_MAX_SPINS` were taken, then a yield while fewer than
    /// `BACKOFF_MAX_YIELDS` were taken, and `Exhausted` from then on.
    pub fn try_snooze(&mut self) -> (r: Snooze)
        ensures
            counts_wf(old(self)@),
            r == snooze_step(old(self)@),
            final(self)@ == snooze_next(old(self)@),
            counts_wf(final(self)@),
    {
        proof {
            use_type_invariant(&*self);
        }
        if self.spins < BACKOFF_MAX_SPINS {
            self.spins = self.spins + 1;
            return Snooze::Spin;
        }
        if self.yields < BACKOFF_MAX_YIELDS {
            self.yields = self.yields + 1;
            return Snooze::Yield;
        }
        Snooze::Exhausted
    }
}

/// A fresh wait's counts stay within their bounds, and after `k` steps they
/// are `k` spins at most `BACKOFF_MAX_SPINS`, then the rest as yields at
/// most `BACKOFF_MAX_YIELDS`.
pub proof fn lemma_counts_after(k: nat)
    ensures
        counts_wf(counts_after(k)),
        counts_after(k) == (if k <= BACKOFF_MAX_SPINS {
            (k, 0nat)
        } else if k <= BACKOFF_MAX_SPINS + BACKOFF_MAX_YIELDS {
            (BACKOFF_MAX_SPINS as nat, (k - BACKOFF_MAX_SPINS) as nat)
        } else {
            (BACKOFF_MAX_SPINS as nat, BACKOFF_MAX_YIELDS as nat)
        }),
    decreases k,
{
    if k > 0 {
        lemma_counts_after((k - 1) as nat);
    }
}

/// A fresh wait spins `BACKOFF_MAX_SPINS` times, then yields
/// `BACKOFF_MAX_YIELDS` times, and is exhausted at every later step.
pub proof fn lemma_backoff_schedule(k: nat)
    ensures
        snooze_step(counts_after(k)) == (if k < BACKOFF_MAX_SPINS {
            Snooze::Spin
        } else if k < BACKOFF_MAX_SPINS + BACKOFF_MAX_YIELDS {
            Snooze::Yield
        } else {
            Snooze::Exhausted
        }),
{
    lemma_counts_after(k);
}

} // verus!
