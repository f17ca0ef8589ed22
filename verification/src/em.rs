//! The control of the iteration: when the rounds of expectation and
//! maximization go on, and when they end.
//!
//! A round moves the centers; the caller says after each round whether the
//! centers have converged. The iteration ends with the first round that
//! converged, or with the last round that the cap allows, whichever comes
//! first.

use vstd::prelude::*;

verus! {

/// The most rounds that an iteration runs.
pub const MAX_ITERATIONS: u32 = 1000;

/// How far an iteration has come.
#[derive(Clone, Copy, Debug, PartialEq, Eq, Structural)]
pub struct EmProgress {
    /// The rounds that have run.
    pub iterations: u32,
    /// Whether the last round that ran converged.
    pub converged: bool,
}

impl EmProgress {
    /// The iteration has ended: it converged, or it has run as many rounds as
    /// the cap allows.
    pub open spec fn finished(self) -> bool {
        self.converged || self.iterations >= MAX_ITERATIONS
    }

    /// The progress after one more round, of which `converged` says whether
    /// it converged. An iteration that has ended stays as it is.
    pub open spec fn step(self, converged: bool) -> EmProgress {
        if self.finished() {
            self
        } else {
            EmProgress { iterations: (self.iterations + 1) as u32, converged }
        }
    }

    /// The progress before the first round.
    pub fn start() -> (p: EmProgress)
        ensures
            p == (EmProgress { iterations: 0, converged: false }),
            !p.finished(),
    {
        EmProgress { iterations: 0, converged: false }
    }

    /// Whether the iteration has ended.
    pub fn is_finished(&self) -> (r: bool)
        ensures
            r == self.finished(),
    {
        self.converged || self.iterations >= MAX_ITERATIONS
    }

    /// Takes note of one more round.
    pub fn after_iteration(self, converged: bool) -> (p: EmProgress)
        ensures
            p == self.step(converged),
    {
        if self.is_finished() {
            self
        } else {
            EmProgress { iterations: self.iterations + 1, converged }
        }
    }
}

/// The progress of an iteration whose rounds, in order, converged as
/// `outcomes` says. Rounds that would come after the end do not run.
pub open spec fn progress_after(outcomes: Seq<bool>) -> EmProgress
    decreases outcomes.len(),
{
    if outcomes.len() == 0 {
        EmProgress { iterations: 0, converged: false }
    } else {
        progress_after(outcomes.drop_last()).step(outcomes.last())
    }
}

/// No round before the `n`-th converged.
pub open spec fn none_converged(outcomes: Seq<bool>, n: int) -> bool {
    forall|k: int| 0 <= k < n && k < outcomes.len() ==> !outcomes[k]
}

/// While no round converges, every round runs until the cap is reached, and
/// none after it.
pub proof fn lemma_runs_to_cap(outcomes: Seq<bool>)
    requires
        none_converged(outcomes, outcomes.len() as int),
    ensures
        progress_after(outcomes).iterations == if outcomes.len() <= MAX_ITERATIONS {
            outcomes.len()
        } else {
            MAX_ITERATIONS as nat
        },
        !progress_after(outcomes).converged,
    decreases outcomes.len(),
{
    if outcomes.len() > 0 {
        let before = outcomes.drop_last();
        assert(none_converged(before, before.len() as int)) by {
            assert forall|k: int| 0 <= k < before.len() implies !before[k] by {
                assert(before[k] == outcomes[k]);
            }
        }
        lemma_runs_to_cap(before);
        assert(!outcomes.last());
    }
}

/// The iteration ends with the first round that converges, if the cap allows
/// that round: round `first`, counted from zero, is the last that runs,
/// however many outcomes follow.
pub proof fn lemma_stops_at_convergence(outcomes: Seq<bool>, first: int)
    requires
        0 <= first < outcomes.len(),
        first < MAX_ITERATIONS,
        outcomes[first],
        none_converged(outcomes, first),
    ensures
        progress_after(outcomes) == (EmProgress {
            iterations: (first + 1) as u32,
            converged: true,
        }),
    decreases outcomes.len(),
{
    let before = outcomes.drop_last();
    if first == outcomes.len() - 1 {
        assert(none_converged(before, before.len() as int)) by {
            assert forall|k: int| 0 <= k < before.len() implies !before[k] by {
                assert(before[k] == outcomes[k]);
            }
        }
        lemma_runs_to_cap(before);
    } else {
        assert(before[first] == outcomes[first]);
        assert(none_converged(before, first)) by {
            assert forall|k: int| 0 <= k < first && k < before.len() implies !before[k] by {
                assert(before[k] == outcomes[k]);
            }
        }
        lemma_stops_at_convergence(before, first);
    }
}

/// However the rounds turn out, the iteration never runs more rounds than
/// the cap allows, and it has ended once that many outcomes are in.
pub proof fn lemma_cap_holds(outcomes: Seq<bool>)
    ensures
        progress_after(outcomes).iterations <= MAX_ITERATIONS,
        progress_after(outcomes).iterations <= outcomes.len(),
        outcomes.len() >= MAX_ITERATIONS ==> progress_after(outcomes).finished(),
    decreases outcomes.len(),
{
    if outcomes.len() > 0 {
        lemma_cap_holds(outcomes.drop_last());
        if outcomes.len() >= MAX_ITERATIONS && !progress_after(outcomes).finished() {
            lemma_unfinished_ran_all(outcomes);
        }
    }
}

/// An iteration that has not ended has run a round for every outcome.
pub proof fn lemma_unfinished_ran_all(outcomes: Seq<bool>)
    requires
        !progress_after(outcomes).finished(),
    ensures
        progress_after(outcomes).iterations == outcomes.len(),
    decreases outcomes.len(),
{
    if outcomes.len() > 0 {
        let before = progress_after(outcomes.drop_last());
        if !before.finished() {
            lemma_unfinished_ran_all(outcomes.drop_last());
        }
    }
}

} // verus!
