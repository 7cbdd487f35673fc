use vstd::prelude::*;

verus! {

/// The most evaluations that a root search makes before it gives up; this
/// bounds the work of one search.
pub const MAX_ITERATIONS: u32 = 100;

/// What one evaluation of the function at the current guess found.
#[derive(Clone, Copy, Debug, PartialEq, Eq, Structural)]
pub enum Probe {
    /// The function's value is within the tolerance of zero.
    Converged,
    /// The function is defined there and its slope is steep enough for a
    /// Newton step.
    Steep,
    /// The function is undefined at the guess, or flat there.
    Stalled,
}

/// What the search does next.
#[derive(Clone, Copy, Debug, PartialEq, Eq, Structural)]
pub enum Step {
    /// The current guess is the root.
    Accept,
    /// Take a Newton step from the current guess and evaluate again.
    Newton,
    /// Draw a new guess at random from the search range and evaluate again.
    Resample,
    /// The budget is spent: there is no root to report.
    GiveUp,
}

/// The decisions of a Newton–Raphson search with random restarts, under a
/// fixed budget of evaluations.
pub struct RootSearch {
    iterations: u32,
}

impl RootSearch {
    /// Evaluations made so far.
    pub closed spec fn spec_iterations(&self) -> u32 {
        self.iterations
    }

    /// A search that has made no evaluation yet.
    pub fn new() -> (r: RootSearch)
        ensures
            r.spec_iterations() == 0,
    {
        RootSearch { iterations: 0 }
    }

    /// Evaluations made so far.
    pub fn iterations(&self) -> (r: u32)
        ensures
            r == self.spec_iterations(),
    {
        self.iterations
    }

    /// Takes the outcome of one more evaluation and says what to do next: a
    /// converged guess is accepted; otherwise, while the budget lasts, a
    /// steep slope gives a Newton step and a stalled one a random restart.
    /// Once the budget is spent every call gives up and counts nothing.
    pub fn next(&mut self, probe: Probe) -> (r: Step)
        ensures
            old(self).spec_iterations() >= MAX_ITERATIONS ==> r == Step::GiveUp
                && final(self).spec_iterations() == old(self).spec_iterations(),
            old(self).spec_iterations() < MAX_ITERATIONS ==> {
                &&& final(self).spec_iterations() == old(self).spec_iterations() + 1
                &&& r == if probe == Probe::Converged {
                    Step::Accept
                } else if final(self).spec_iterations() >= MAX_ITERATIONS {
                    Step::GiveUp
                } else if probe == Probe::Steep {
                    Step::Newton
                } else {
                    Step::Resample
                }
            },
    {
        if self.iterations >= MAX_ITERATIONS {
            return Step::GiveUp;
        }
        self.iterations = self.iterations + 1;
        match probe {
            Probe::Converged => Step::Accept,
            _ => if self.iterations >= MAX_ITERATIONS {
                Step::GiveUp
            } else {
                match probe {
                    Probe::Steep => Step::Newton,
                    _ => Step::Resample,
                }
            },
        }
    }
}

} // verus!
